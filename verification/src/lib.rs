//! Configuration records of the TON network and the discovery of its liteservers.

pub mod discover;
pub mod ton_config;
