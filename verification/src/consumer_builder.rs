//! Builder for consumers: fluent setters, and the checks that a request must
//! pass before it is sent.

use crate::error::{invalid, refused, ClientError};
use crate::group::{group_of, resolve_group, NO_GROUP};
use crate::policy::{AckPolicy, DeliverMode, DeliverPolicy};
use vstd::prelude::*;
use vstd::slice::slice_to_vec;

verus! {

pub const NO_ACK_POLICY: &'static str = "ack_policy must be set explicitly (AckPolicy::None or AckPolicy::Explicit) — there is no safe default";

pub const INFLIGHT_NEEDS_ACK: &'static str = "max_inflight requires AckPolicy::Explicit (fire-and-forget consumers don't track inflight)";

pub const SUBJECT_INFLIGHT_NEEDS_ACK: &'static str = "max_subject_inflight requires AckPolicy::Explicit (fire-and-forget consumers don't track inflight)";

pub const ACK_WAIT_NEEDS_ACK: &'static str = "ack_wait_ms requires AckPolicy::Explicit";

pub const START_SEQ_NEEDED: &'static str = "DeliverPolicy::ByStartSeq requires start_seq > 0";

/// Cap on unacknowledged messages of the subjects that match a pattern.
#[derive(Debug)]
pub struct SubjectLimit {
    pub pattern: Vec<u8>,
    pub limit: u32,
}

/// A consumer in the making. The ack policy has no default.
#[derive(Debug)]
pub struct ConsumerBuilder {
    pub name: Vec<u8>,
    pub group: Vec<u8>,
    pub stream_name: Vec<u8>,
    pub filter: Vec<u8>,
    pub max_inflight: u16,
    pub ack_policy: Option<AckPolicy>,
    pub deliver_policy: DeliverPolicy,
    pub deliver_mode: DeliverMode,
    pub ack_wait_ms: u32,
    pub start_seq: u64,
    pub subject_limits: Vec<SubjectLimit>,
}

/// A request to create a consumer, with every field as it goes on the wire.
#[derive(Debug)]
pub struct CreateConsumer {
    pub stream_id: u32,
    pub name: Vec<u8>,
    pub group: Vec<u8>,
    pub subject: Vec<u8>,
    pub max_inflight: u16,
    pub ack_policy: u8,
    pub deliver_policy: u8,
    pub deliver_mode: u8,
    pub ack_wait_ms: u32,
    pub start_seq: u64,
    pub subject_limits: Vec<SubjectLimit>,
}

impl ConsumerBuilder {
    /// Why the settings contradict each other, if they do: the first rule
    /// that is broken, in order.
    pub open spec fn fault(&self) -> Option<Seq<char>> {
        if self.ack_policy is None {
            Some(NO_ACK_POLICY@)
        } else if self.ack_policy == Some(AckPolicy::NoAck) && self.max_inflight != 0 {
            Some(INFLIGHT_NEEDS_ACK@)
        } else if self.ack_policy == Some(AckPolicy::NoAck) && self.subject_limits@.len() != 0 {
            Some(SUBJECT_INFLIGHT_NEEDS_ACK@)
        } else if self.ack_policy == Some(AckPolicy::NoAck) && self.ack_wait_ms != 0 {
            Some(ACK_WAIT_NEEDS_ACK@)
        } else if self.deliver_policy is ByStartSeq && self.start_seq == 0 {
            Some(START_SEQ_NEEDED@)
        } else if group_of(self.group@, self.name@, self.stream_name@) is None {
            Some(NO_GROUP@)
        } else {
            None
        }
    }

    /// A consumer named `name`: no filter, from the first message on, shared
    /// within its group, no caps.
    pub fn new(name: &[u8]) -> (r: ConsumerBuilder)
        ensures
            r.name@ == name@,
            r.group@.len() == 0,
            r.stream_name@.len() == 0,
            r.filter@.len() == 0,
            r.max_inflight == 0,
            r.ack_policy is None,
            r.deliver_policy is All,
            r.deliver_mode is Queue,
            r.ack_wait_ms == 0,
            r.start_seq == 0,
            r.subject_limits@.len() == 0,
    {
        ConsumerBuilder {
            name: slice_to_vec(name),
            group: Vec::new(),
            stream_name: Vec::new(),
            filter: Vec::new(),
            max_inflight: 0,
            ack_policy: None,
            deliver_policy: DeliverPolicy::All,
            deliver_mode: DeliverMode::Queue,
            ack_wait_ms: 0,
            start_seq: 0,
            subject_limits: Vec::new(),
        }
    }

    /// Queue group. Left empty it becomes the consumer name, then the stream
    /// name.
    pub fn group(self, group: &[u8]) -> (r: ConsumerBuilder)
        ensures
            r.group@ == group@,
            r == (ConsumerBuilder { group: r.group, ..self }),
    {
        ConsumerBuilder { group: slice_to_vec(group), ..self }
    }

    /// Name of the stream: the last resort for naming the group.
    pub fn stream_name(self, stream_name: &[u8]) -> (r: ConsumerBuilder)
        ensures
            r.stream_name@ == stream_name@,
            r == (ConsumerBuilder { stream_name: r.stream_name, ..self }),
    {
        ConsumerBuilder { stream_name: slice_to_vec(stream_name), ..self }
    }

    /// Subject filter.
    pub fn filter(self, filter: &[u8]) -> (r: ConsumerBuilder)
        ensures
            r.filter@ == filter@,
            r == (ConsumerBuilder { filter: r.filter, ..self }),
    {
        ConsumerBuilder { filter: slice_to_vec(filter), ..self }
    }

    /// Cap on unacknowledged messages. Needs explicit acks.
    pub fn max_inflight(self, v: u16) -> (r: ConsumerBuilder)
        ensures
            r == (ConsumerBuilder { max_inflight: v, ..self }),
    {
        ConsumerBuilder { max_inflight: v, ..self }
    }

    pub fn ack_policy(self, v: AckPolicy) -> (r: ConsumerBuilder)
        ensures
            r == (ConsumerBuilder { ack_policy: Some(v), ..self }),
    {
        ConsumerBuilder { ack_policy: Some(v), ..self }
    }

    pub fn deliver_policy(self, v: DeliverPolicy) -> (r: ConsumerBuilder)
        ensures
            r == (ConsumerBuilder { deliver_policy: v, ..self }),
    {
        ConsumerBuilder { deliver_policy: v, ..self }
    }

    pub fn deliver_mode(self, v: DeliverMode) -> (r: ConsumerBuilder)
        ensures
            r == (ConsumerBuilder { deliver_mode: v, ..self }),
    {
        ConsumerBuilder { deliver_mode: v, ..self }
    }

    pub fn ack_wait_ms(self, v: u32) -> (r: ConsumerBuilder)
        ensures
            r == (ConsumerBuilder { ack_wait_ms: v, ..self }),
    {
        ConsumerBuilder { ack_wait_ms: v, ..self }
    }

    pub fn start_seq(self, v: u64) -> (r: ConsumerBuilder)
        ensures
            r == (ConsumerBuilder { start_seq: v, ..self }),
    {
        ConsumerBuilder { start_seq: v, ..self }
    }

    /// Cap unacknowledged messages of every subject that matches `pattern`.
    /// Calls accumulate. Needs explicit acks.
    pub fn max_subject_inflight(self, pattern: &[u8], limit: u32) -> (r: ConsumerBuilder)
        ensures
            r.subject_limits@.len() == self.subject_limits@.len() + 1,
            r.subject_limits@.drop_last() == self.subject_limits@,
            r.subject_limits@.last().pattern@ == pattern@,
            r.subject_limits@.last().limit == limit,
            r == (ConsumerBuilder { subject_limits: r.subject_limits, ..self }),
    {
        let mut limits = self.subject_limits;
        let ghost before = limits@;
        limits.push(SubjectLimit { pattern: slice_to_vec(pattern), limit });
        assert(limits@.drop_last() =~= before);
        ConsumerBuilder { subject_limits: limits, ..self }
    }

    /// Check the settings against each other and settle the queue group.
    pub fn validate(&self) -> (r: Result<(AckPolicy, &[u8]), ClientError>)
        ensures
            match self.fault() {
                Some(text) => refused(r, text),
                None => r matches Ok((policy, group)) && Some(policy) == self.ack_policy && Some(
                    group@,
                ) == group_of(self.group@, self.name@, self.stream_name@),
            },
            r matches Ok((_, group)) ==> group@.len() != 0,
            r is Ok <==> {
                &&& self.ack_policy is Some
                &&& self.ack_policy == Some(AckPolicy::NoAck) ==> self.max_inflight == 0
                    && self.subject_limits@.len() == 0 && self.ack_wait_ms == 0
                &&& self.deliver_policy is ByStartSeq ==> self.start_seq > 0
                &&& self.group@.len() > 0 || self.name@.len() > 0 || self.stream_name@.len() > 0
            },
            r matches Ok((_, group)) ==> group@ == if self.group@.len() > 0 {
                self.group@
            } else if self.name@.len() > 0 {
                self.name@
            } else {
                self.stream_name@
            },
    {
        let policy: AckPolicy = match self.ack_policy {
            Some(p) => p,
            None => {
                return Err(invalid(NO_ACK_POLICY));
            },
        };
        if policy == AckPolicy::NoAck {
            if self.max_inflight != 0 {
                return Err(invalid(INFLIGHT_NEEDS_ACK));
            }
            if self.subject_limits.len() != 0 {
                return Err(invalid(SUBJECT_INFLIGHT_NEEDS_ACK));
            }
            if self.ack_wait_ms != 0 {
                return Err(invalid(ACK_WAIT_NEEDS_ACK));
            }
        }
        if self.deliver_policy == DeliverPolicy::ByStartSeq && self.start_seq == 0 {
            return Err(invalid(START_SEQ_NEEDED));
        }
        match resolve_group(
            self.group.as_slice(),
            self.name.as_slice(),
            self.stream_name.as_slice(),
        ) {
            Ok(group) => Ok((policy, group)),
            Err(e) => Err(e),
        }
    }

    /// The request to send, where the settings are sound. `by_start_seq` is
    /// the protocol's value for that policy.
    pub fn request(self, stream_id: u32, by_start_seq: u8) -> (r: Result<
        CreateConsumer,
        ClientError,
    >)
        ensures
            match self.fault() {
                Some(text) => refused(r, text),
                None => {
                    &&& r matches Ok(req)
                    &&& req.stream_id == stream_id
                    &&& req.name@ == self.name@
                    &&& Some(req.group@) == group_of(self.group@, self.name@, self.stream_name@)
                    &&& req.group@.len() != 0
                    &&& req.subject@ == self.filter@
                    &&& req.max_inflight == self.max_inflight
                    &&& self.ack_policy matches Some(p)
                    &&& req.ack_policy == p.wire()
                    &&& req.deliver_policy == self.deliver_policy.wire(by_start_seq)
                    &&& req.deliver_mode == self.deliver_mode.wire()
                    &&& req.ack_wait_ms == self.ack_wait_ms
                    &&& req.start_seq == self.start_seq
                    &&& req.subject_limits@ == self.subject_limits@
                },
            },
    {
        let (policy, group): (AckPolicy, Vec<u8>) = match self.validate() {
            Ok((policy, group)) => (policy, slice_to_vec(group)),
            Err(e) => {
                return Err(e);
            },
        };
        Ok(
            CreateConsumer {
                stream_id,
                name: self.name,
                group,
                subject: self.filter,
                max_inflight: self.max_inflight,
                ack_policy: policy.as_u8(),
                deliver_policy: self.deliver_policy.as_u8(by_start_seq),
                deliver_mode: self.deliver_mode.as_u8(),
                ack_wait_ms: self.ack_wait_ms,
                start_seq: self.start_seq,
                subject_limits: self.subject_limits,
            },
        )
    }
}

} // verus!
