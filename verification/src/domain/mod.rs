//! Candles, intervals and the numbers that candles hold.

pub mod candle;
pub mod interval;
pub mod number;
