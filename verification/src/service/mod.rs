//! Service-to-service requests over streams.

pub mod handlers;
pub mod mux;
pub mod names;
pub mod plan;
pub mod route;
