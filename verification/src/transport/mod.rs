//! Frames in and out.

pub mod ack_state;
pub mod frame;
pub mod reader;
