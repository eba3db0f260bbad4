//! Deliveries and what becomes of them.

pub mod batch;
pub mod delivered;
pub mod demux;
pub mod message;
pub mod subscribe;
