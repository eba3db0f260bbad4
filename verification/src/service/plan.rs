//! What a service asks the broker for when it starts.

use crate::consumer_builder::CreateConsumer;
use crate::policy::{AckPolicy, DeliverMode, DiscardPolicy, JournalKind, RetentionPolicy};
use crate::service::names::{
    reply_filter, reply_name, stream_filter, stream_name, worker_filter, worker_name,
};
use crate::stream_builder::CreateStream;
use crate::text::decimal;
use vstd::prelude::*;
use vstd::slice::slice_to_vec;
use vstd::utf8::encode_utf8;

verus! {

/// Settings of a service.
#[derive(Debug)]
pub struct ServiceBuilder {
    pub name: String,
    pub max_inflight: u32,
}

/// How long the broker waits for the ack of a request.
pub const SERVICE_ACK_WAIT_MS: u32 = 30_000;

/// How long requests and replies are kept.
pub const SERVICE_MAX_AGE_SECS: u64 = 3600;

impl ServiceBuilder {
    pub fn new(name: &str) -> (r: ServiceBuilder)
        ensures
            r.name@ == name@,
            r.max_inflight == 1024,
    {
        ServiceBuilder { name: name.to_owned(), max_inflight: 1024 }
    }

    /// Cap on requests that are being worked on.
    pub fn max_inflight(self, n: u32) -> (r: ServiceBuilder)
        ensures
            r == (ServiceBuilder { max_inflight: n, ..self }),
    {
        ServiceBuilder { max_inflight: n, ..self }
    }

    /// The stream that carries requests and replies.
    pub fn stream_request(&self) -> (r: CreateStream)
        ensures
            r.name@ == encode_utf8("_svc-"@ + self.name@),
            r.filter@ == encode_utf8("_svc."@ + self.name@ + ".>"@),
            r.max_msgs == 0,
            r.max_bytes == 0,
            r.max_age_secs == SERVICE_MAX_AGE_SECS,
            r.max_age_secs == 3600,
            r.replicas == 1,
            r.journal_kind == JournalKind::Memory.wire(),
            r.retention == RetentionPolicy::Limits.wire(),
            r.discard == DiscardPolicy::Old.wire(),
            r.idempotency_window_ms == 0,
    {
        CreateStream {
            name: stream_name(self.name.as_str()),
            filter: stream_filter(self.name.as_str()),
            max_msgs: 0,
            max_bytes: 0,
            max_age_secs: SERVICE_MAX_AGE_SECS,
            replicas: 1,
            journal_kind: JournalKind::Memory.as_u8(),
            retention: RetentionPolicy::Limits.as_u8(),
            discard: DiscardPolicy::Old.as_u8(),
            idempotency_window_ms: 0,
        }
    }

    /// The cap as it goes on the wire: its low sixteen bits.
    pub open spec fn wire_inflight(&self) -> nat {
        self.max_inflight as nat % 0x1_0000
    }

    fn inflight(&self) -> (r: u16)
        ensures
            r as nat == self.wire_inflight(),
    {
        (self.max_inflight % 0x1_0000) as u16
    }

    /// The consumer of requests. Every instance joins the same group, so that
    /// they share the load.
    pub fn worker_request(&self, stream_id: u32) -> (r: CreateConsumer)
        ensures
            r.stream_id == stream_id,
            r.name@ == encode_utf8("_svc-"@ + self.name@ + "-worker"@),
            r.group@ == r.name@,
            r.subject@ == encode_utf8("_svc."@ + self.name@ + ".m.>"@),
            r.max_inflight as nat == self.wire_inflight(),
            r.max_inflight as int == self.max_inflight % 65536,
            r.ack_wait_ms == 30_000,
            r.ack_policy == AckPolicy::Explicit.wire(),
            r.deliver_policy == 0,
            r.deliver_mode == DeliverMode::Queue.wire(),
            r.ack_wait_ms == SERVICE_ACK_WAIT_MS,
            r.start_seq == 0,
            r.subject_limits@.len() == 0,
    {
        let name = worker_name(self.name.as_str());
        let group = slice_to_vec(name.as_slice());
        CreateConsumer {
            stream_id,
            name,
            group,
            subject: worker_filter(self.name.as_str()),
            max_inflight: self.inflight(),
            ack_policy: AckPolicy::Explicit.as_u8(),
            deliver_policy: 0,
            deliver_mode: DeliverMode::Queue.as_u8(),
            ack_wait_ms: SERVICE_ACK_WAIT_MS,
            start_seq: 0,
            subject_limits: Vec::new(),
        }
    }

    /// The consumer of one instance's replies. It shares them with nobody;
    /// its group is its own name, because a group is never left empty.
    pub fn reply_request(&self, stream_id: u32, instance: u64) -> (r: CreateConsumer)
        ensures
            r.stream_id == stream_id,
            r.name@ == encode_utf8(
                "_svc-"@ + self.name@ + "-reply-"@ + decimal(instance as nat),
            ),
            r.group@ == r.name@,
            r.subject@ == encode_utf8(
                "_svc."@ + self.name@ + "._r."@ + decimal(instance as nat) + ".>"@,
            ),
            r.max_inflight as nat == self.wire_inflight(),
            r.max_inflight as int == self.max_inflight % 65536,
            r.ack_wait_ms == 30_000,
            r.ack_policy == AckPolicy::Explicit.wire(),
            r.deliver_policy == 0,
            r.deliver_mode == DeliverMode::Fanout.wire(),
            r.ack_wait_ms == SERVICE_ACK_WAIT_MS,
            r.start_seq == 0,
            r.subject_limits@.len() == 0,
    {
        let name = reply_name(self.name.as_str(), instance);
        let group = slice_to_vec(name.as_slice());
        CreateConsumer {
            stream_id,
            name,
            group,
            subject: reply_filter(self.name.as_str(), instance),
            max_inflight: self.inflight(),
            ack_policy: AckPolicy::Explicit.as_u8(),
            deliver_policy: 0,
            deliver_mode: DeliverMode::Fanout.as_u8(),
            ack_wait_ms: SERVICE_ACK_WAIT_MS,
            start_seq: 0,
            subject_limits: Vec::new(),
        }
    }
}

} // verus!
