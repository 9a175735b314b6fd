//! What is computed from candles.

pub mod guaili;
