//! The exchange: its history, its streams and the worker that follows them.

pub mod connection;
pub mod plan;
pub mod rest;
pub mod seed;
pub mod types;
pub mod worker;
