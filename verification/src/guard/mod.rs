//! What keeps the probe from weighing on its host.
pub mod breaker;
