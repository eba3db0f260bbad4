//! Starting, resuming and cancelling instances.

use crate::text::{decimal, push_decimal, text_of, utf8_lossy};
use crate::workflow::messages::{
    cancel_message, cancel_out, resume_message, resume_out, step_message, step_out, Out,
};
use vstd::prelude::*;
use vstd::slice::slice_to_vec;

verus! {

/// Names instances and workers: the numbers from one on, in decimal.
#[derive(Debug)]
pub struct InstanceIds {
    pub next: u32,
}

impl InstanceIds {
    pub fn new() -> (r: InstanceIds)
        ensures
            r.next == 1,
    {
        InstanceIds { next: 1 }
    }

    /// The next name, wrapping after `u32::MAX`.
    pub fn next_instance_id(&mut self) -> (r: String)
        ensures
            r@ == decimal(old(self).next as nat),
            final(self).next == old(self).next.wrapping_add(1),
    {
        let n: u32 = self.next;
        self.next = n.wrapping_add(1);
        let mut s = "".to_owned();
        push_decimal(&mut s, n as u64);
        proof {
            reveal_strlit("");
            assert(""@ + decimal(n as nat) =~= decimal(n as nat));
        }
        s
    }
}

/// A workflow that has been started.
#[derive(Debug)]
pub struct WorkflowHandle {
    pub name: Vec<u8>,
    /// The name as text.
    pub text: String,
    pub task_stream_id: u32,
    pub dlq_stream_id: u32,
    pub resume_seq: u32,
}

impl WorkflowHandle {
    pub open spec fn wf(&self) -> bool {
        self.text@ == text_of(self.name@)
    }

    pub fn new(name: &[u8], task_stream_id: u32, dlq_stream_id: u32) -> (r: WorkflowHandle)
        ensures
            r.wf(),
            r.name@ == name@,
            r.task_stream_id == task_stream_id,
            r.dlq_stream_id == dlq_stream_id,
            r.resume_seq == 0,
    {
        WorkflowHandle {
            name: slice_to_vec(name),
            text: utf8_lossy(name),
            task_stream_id,
            dlq_stream_id,
            resume_seq: 0,
        }
    }

    pub fn name(&self) -> (r: &[u8])
        ensures
            r@ == self.name@,
    {
        self.name.as_slice()
    }

    pub fn task_stream_id(&self) -> (r: u32)
        ensures
            r == self.task_stream_id,
    {
        self.task_stream_id
    }

    pub fn dlq_stream_id(&self) -> (r: u32)
        ensures
            r == self.dlq_stream_id,
    {
        self.dlq_stream_id
    }

    /// Start an instance under a name of the caller's choice.
    pub fn trigger_with_id(&self, instance_id: &str, context: &[u8]) -> (r: Out)
        ensures
            r@ == step_out(self.text@, instance_id@, 0, context@),
    {
        step_message(self.text.as_str(), instance_id, 0, context)
    }

    /// Start an instance under a new name. Returns the name and what to
    /// publish.
    pub fn trigger(&self, ids: &mut InstanceIds, context: &[u8]) -> (r: (String, Out))
        ensures
            r.0@ == decimal(old(ids).next as nat),
            r.1@ == step_out(self.text@, r.0@, 0, context@),
            final(ids).next == old(ids).next.wrapping_add(1),
    {
        let id = ids.next_instance_id();
        let out = self.trigger_with_id(id.as_str(), context);
        (id, out)
    }

    /// Cancel an instance. Does nothing to one that is not suspended.
    pub fn cancel(&self, instance_id: &str) -> (r: Out)
        ensures
            r@ == cancel_out(self.text@, instance_id@),
    {
        cancel_message(self.text.as_str(), instance_id)
    }

    /// Resume a suspended instance with an event. Every event has a message
    /// id of its own.
    pub fn resume(&mut self, instance_id: &str, event: &[u8]) -> (r: Out)
        ensures
            r@ == resume_out(old(self).text@, instance_id@, old(self).resume_seq, event@),
            *final(self) == (WorkflowHandle {
                resume_seq: old(self).resume_seq.wrapping_add(1),
                ..*old(self)
            }),
    {
        let seq: u32 = self.resume_seq;
        self.resume_seq = seq.wrapping_add(1);
        resume_message(self.text.as_str(), instance_id, seq, event)
    }
}

} // verus!
