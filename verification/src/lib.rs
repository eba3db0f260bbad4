//! Verified core of the Arbitro message-broker client.

pub mod ackrel;
pub mod ackstore;
pub mod bytes;
pub mod client;
pub mod config;
pub mod conn;
pub mod consume;
pub mod consumer_builder;
pub mod cron;
pub mod error;
pub mod group;
pub mod le;
pub mod metrics;
pub mod ordered;
pub mod policy;
pub mod publish;
pub mod queue;
pub mod service;
pub mod state;
pub mod stream_builder;
pub mod text;
pub mod transport;
pub mod workflow;
