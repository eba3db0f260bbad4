//! Settings of a durable work queue.
//!
//! The ack policy is not among them: a work queue is always acknowledged
//! explicitly, or a job would be lost with the worker that held it.

use crate::policy::DeliverPolicy;
use vstd::prelude::*;
use vstd::slice::slice_to_vec;

verus! {

/// Optional settings; every default is the permissive one.
#[derive(Debug, Clone, PartialEq, Eq)]
pub struct QueueOptions {
    pub filter: Vec<u8>,
    pub ack_wait_ms: u32,
    pub max_inflight: u16,
    pub deliver_policy: DeliverPolicy,
    pub start_seq: u64,
    pub subject_limits: Vec<(Vec<u8>, u32)>,
}

impl Default for QueueOptions {
    fn default() -> (r: QueueOptions)
        ensures
            r.filter@.len() == 0,
            r.ack_wait_ms == 0,
            r.max_inflight == 0,
            r.deliver_policy is All,
            r.start_seq == 0,
            r.subject_limits@.len() == 0,
    {
        QueueOptions {
            filter: Vec::new(),
            ack_wait_ms: 0,
            max_inflight: 0,
            deliver_policy: DeliverPolicy::All,
            start_seq: 0,
            subject_limits: Vec::new(),
        }
    }
}

impl QueueOptions {
    /// All defaults.
    pub fn new() -> (r: QueueOptions)
        ensures
            r.filter@.len() == 0,
            r.ack_wait_ms == 0,
            r.max_inflight == 0,
            r.deliver_policy is All,
            r.start_seq == 0,
            r.subject_limits@.len() == 0,
    {
        QueueOptions::default()
    }

    /// Subject filter of this subscription.
    pub fn filter(self, filter: &[u8]) -> (r: QueueOptions)
        ensures
            r.filter@ == filter@,
            r == (QueueOptions { filter: r.filter, ..self }),
    {
        QueueOptions { filter: slice_to_vec(filter), ..self }
    }

    /// How long the broker waits for an ack before it redelivers. Zero keeps
    /// the broker's default.
    pub fn ack_wait_ms(self, ms: u32) -> (r: QueueOptions)
        ensures
            r == (QueueOptions { ack_wait_ms: ms, ..self }),
    {
        QueueOptions { ack_wait_ms: ms, ..self }
    }

    /// Cap on unacknowledged messages of the whole queue. Zero: no cap.
    pub fn max_inflight(self, n: u16) -> (r: QueueOptions)
        ensures
            r == (QueueOptions { max_inflight: n, ..self }),
    {
        QueueOptions { max_inflight: n, ..self }
    }

    /// Where the queue starts reading when it is first created.
    pub fn deliver_policy(self, p: DeliverPolicy) -> (r: QueueOptions)
        ensures
            r == (QueueOptions { deliver_policy: p, ..self }),
    {
        QueueOptions { deliver_policy: p, ..self }
    }

    /// Starting sequence for `DeliverPolicy::ByStartSeq`.
    pub fn start_seq(self, seq: u64) -> (r: QueueOptions)
        ensures
            r == (QueueOptions { start_seq: seq, ..self }),
    {
        QueueOptions { start_seq: seq, ..self }
    }

    /// Cap unacknowledged messages of every subject that matches `pattern`.
    /// Calls accumulate.
    pub fn max_subject_inflight(self, pattern: &[u8], limit: u32) -> (r: QueueOptions)
        ensures
            r.subject_limits@.len() == self.subject_limits@.len() + 1,
            r.subject_limits@.drop_last() == self.subject_limits@,
            r.subject_limits@.last().0@ == pattern@,
            r.subject_limits@.last().1 == limit,
            r == (QueueOptions { subject_limits: r.subject_limits, ..self }),
    {
        let mut limits = self.subject_limits;
        let ghost before = limits@;
        limits.push((slice_to_vec(pattern), limit));
        assert(limits@.drop_last() =~= before);
        QueueOptions { subject_limits: limits, ..self }
    }
}

} // verus!
