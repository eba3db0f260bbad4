//! Connection upkeep.

pub mod heartbeat;
pub mod reconnect;
pub mod session;
