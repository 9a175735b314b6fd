//! What is kept of the candles.

pub mod sqlite;
