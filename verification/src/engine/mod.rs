//! Building candles of one interval out of trades and shorter candles.

pub mod aggregator;
