//! Client-side ack reliability: deferred acks per consumer, and the bounded
//! redelivery guard.

pub mod cold;
pub mod pending;
pub mod relay;
pub mod seen;
