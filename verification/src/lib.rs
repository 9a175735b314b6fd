//! Candlesticks of crypto markets: building them from trades and from shorter
//! candles, keeping and serving them, and watching them for price alerts.

pub mod alerts;
pub mod binance;
pub mod config;
pub mod domain;
pub mod engine;
pub mod http;
pub mod indicators;
pub mod json;
pub mod memory;
pub mod order;
pub mod runtime_health;
pub mod series;
pub mod storage;
pub mod text;
