//! What step handlers are given and give back.

use vstd::prelude::*;

verus! {

/// What a step has produced.
#[derive(Debug)]
pub struct StepResult {
    pub context: Vec<u8>,
}

/// What a step is given.
#[derive(Debug)]
pub struct StepContext {
    pub name: Vec<u8>,
    pub instance_id: String,
    pub step_index: u16,
    pub attempt: u8,
    pub context: Vec<u8>,
}

/// How a step went.
#[derive(Debug)]
pub enum StepOutcome {
    /// Go on with the next step, or finish.
    Done(StepResult),
    /// Wait for an event. Zero milliseconds: for as long as the step says.
    Suspend { state: Vec<u8>, timeout_ms: u64 },
}

/// What a suspended step is given when an event has come.
#[derive(Debug)]
pub struct ResumeContext {
    pub name: Vec<u8>,
    pub instance_id: String,
    pub step_index: u16,
    /// What the step left when it was suspended.
    pub state: Vec<u8>,
    pub event: Vec<u8>,
}

/// What a suspended step is given when it has waited too long.
#[derive(Debug)]
pub struct TimeoutContext {
    pub name: Vec<u8>,
    pub instance_id: String,
    pub step_index: u16,
    /// What the step left when it was suspended.
    pub state: Vec<u8>,
}

/// What a step is like.
#[derive(Debug, Clone, Copy, PartialEq, Eq, Structural)]
pub enum StepKind {
    Normal,
    /// It may wait. Zero milliseconds: forever. `on_timeout`: something is to
    /// be done when it has waited too long.
    Suspend { timeout_ms: u64, on_timeout: bool },
}

} // verus!
