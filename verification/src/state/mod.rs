//! Shared client state.

pub mod matcher;
pub mod pending;
pub mod seq;
pub mod subscriptions;
