//! Delivered-set store: remembers which messages a consumer has already
//! handled, so that a redelivery is acknowledged without running the handler
//! again.

pub mod compact;
pub mod dir;
pub mod durable;
pub mod format;
pub mod live;
pub mod memory;
pub mod replay;
pub mod restart;
pub mod slot;
pub mod snapshot;
pub mod store;
pub mod sweep;
pub mod table;
pub mod wal;
pub mod wal_core;
