//! What the service answers: candles, health, alerts and the indicator.

pub mod alert_rules;
pub mod handlers;
pub mod health;
pub mod queries;
pub mod routes;
