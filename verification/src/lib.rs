//! A standing pool of vanity key pairs: the search routine that finds them, the
//! durable first-in first-out store that hands each one out once, the sliding
//! window admission control in front of the store, and the control decisions of the
//! background task that keeps the pool filled.

pub mod address;
pub mod codec;
pub mod config;
pub mod gateway;
pub mod generator;
pub mod health;
pub mod layout;
pub mod models;
pub mod pool;
pub mod rate_limit;
pub mod storage;
pub mod validation;
