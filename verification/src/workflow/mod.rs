//! Linear pipelines over streams. The broker knows nothing of them: steps
//! travel as messages with message ids, and a consumer group shares the work.

pub mod builder;
pub mod context;
pub mod engine;
pub mod handle;
pub mod messages;
pub mod suspended;
pub mod task;
