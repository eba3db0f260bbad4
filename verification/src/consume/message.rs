//! A delivered message, and the answers that can be given to it.

use crate::ackrel::relay::AckRelay;
use crate::consume::delivered::{marked, marked_is_seen, Delivered};
use crate::error::ClientError;
use crate::le::{
    get_u32, le_bytes, le_bytes_len, le_round_trip, le_value, le_value_round_trip, pow256_values,
    push_u32,
};
use crate::metrics::ClientMetrics;
use vstd::prelude::*;
use vstd::slice::slice_to_vec;

verus! {

/// First byte of a reply address that names its stream:
/// `[0xFF][stream id, 4 bytes][subject]`.
pub const REPLY_TO_MAGIC: u8 = 0xFF;

/// Shortest such address.
pub const REPLY_TO_MIN_LEN: usize = 5;

/// The reply address of a subject on a stream.
pub open spec fn reply_address(stream_id: u32, subject: Seq<u8>) -> Seq<u8> {
    seq![REPLY_TO_MAGIC] + le_bytes(stream_id as nat, 4) + subject
}

/// A reply address that names its stream.
pub open spec fn is_address(a: Seq<u8>) -> bool {
    a.len() >= REPLY_TO_MIN_LEN && a[0] == REPLY_TO_MAGIC
}

/// The stream that an address names.
pub open spec fn address_stream(a: Seq<u8>) -> u32 {
    le_value(a.subrange(1, 5)) as u32
}

/// Write a reply address.
pub fn encode_reply_to(stream_id: u32, subject: &[u8]) -> (r: Vec<u8>)
    ensures
        r@ == reply_address(stream_id, subject@),
{
    let mut out: Vec<u8> = Vec::new();
    out.push(REPLY_TO_MAGIC);
    push_u32(&mut out, stream_id);
    out.extend_from_slice(subject);
    assert(out@ =~= reply_address(stream_id, subject@));
    out
}

/// Stream and subject of a reply address; `None` for anything else.
pub fn decode_reply_to(reply_to: &[u8]) -> (r: Option<(u32, &[u8])>)
    ensures
        match r {
            Some((stream_id, subject)) => is_address(reply_to@) && stream_id == address_stream(
                reply_to@,
            ) && subject@ == reply_to@.skip(5),
            None => !is_address(reply_to@),
        },
{
    if reply_to.len() >= REPLY_TO_MIN_LEN && reply_to[0] == REPLY_TO_MAGIC {
        let stream_id = get_u32(reply_to, 1);
        let subject = vstd::slice::slice_subrange(reply_to, REPLY_TO_MIN_LEN, reply_to.len());
        assert(subject@ =~= reply_to@.skip(5));
        Some((stream_id, subject))
    } else {
        None
    }
}

/// A reply address reads back as the stream and the subject it was written
/// from.
pub proof fn reply_address_round_trip(stream_id: u32, subject: Seq<u8>)
    ensures
        is_address(reply_address(stream_id, subject)),
        address_stream(reply_address(stream_id, subject)) == stream_id,
        reply_address(stream_id, subject).skip(5) == subject,
{
    let a = reply_address(stream_id, subject);
    le_bytes_len(stream_id as nat, 4);
    assert(a.subrange(1, 5) =~= le_bytes(stream_id as nat, 4));
    pow256_values();
    le_round_trip(stream_id as nat, 4);
    assert(a.skip(5) =~= subject);
}

/// An address is the only one for its stream and subject.
pub proof fn reply_address_is_canonical(a: Seq<u8>)
    requires
        is_address(a),
    ensures
        reply_address(address_stream(a), a.skip(5)) == a,
{
    let s = a.subrange(1, 5);
    pow256_values();
    le_value_round_trip(s);
    assert(reply_address(address_stream(a), a.skip(5)) =~= a);
}

/// An ack on its way to the broker.
#[derive(Debug, Clone, Copy, PartialEq, Eq, Structural)]
pub struct AckCmd {
    pub seq: u64,
    pub consumer_id: u32,
    pub sub_id: u32,
}

/// A negative ack on its way to the broker. A delay of zero asks for
/// redelivery at once.
#[derive(Debug, Clone, Copy, PartialEq, Eq, Structural)]
pub struct NackCmd {
    pub seq: u64,
    pub consumer_id: u32,
    pub sub_id: u32,
    pub delay_ms: u32,
}

/// A message delivered to one subscription.
#[derive(Debug)]
pub struct Message {
    /// Delivery number, ascending within a stream.
    pub seq: u64,
    pub consumer_id: u32,
    pub stream_id: u32,
    /// The subscription, named again in ack and nack.
    pub sub_id: u32,
    pub subject: Vec<u8>,
    pub reply_to: Vec<u8>,
    pub payload: Vec<u8>,
    /// Delivered-set slot of the consumer. `None` where nothing is recorded.
    pub slot: Option<u32>,
}

impl Message {
    pub fn subject(&self) -> (r: &[u8])
        ensures
            r@ == self.subject@,
    {
        self.subject.as_slice()
    }

    /// Reply address as it came.
    pub fn reply_to_raw(&self) -> (r: &[u8])
        ensures
            r@ == self.reply_to@,
    {
        self.reply_to.as_slice()
    }

    /// The sender waits for a reply.
    pub fn has_reply_to(&self) -> (r: bool)
        ensures
            r == (self.reply_to@.len() != 0),
    {
        self.reply_to.len() != 0
    }

    /// A copy of the payload.
    pub fn payload(&self) -> (r: Vec<u8>)
        ensures
            r@ == self.payload@,
    {
        slice_to_vec(self.payload.as_slice())
    }

    pub fn data(&self) -> (r: &[u8])
        ensures
            r@ == self.payload@,
    {
        self.payload.as_slice()
    }

    /// Where a reply to this message is to be published: stream and subject.
    pub fn reply(&self) -> (r: Result<(u32, Vec<u8>), ClientError>)
        ensures
            match r {
                Ok((stream_id, subject)) => is_address(self.reply_to@) && stream_id
                    == address_stream(self.reply_to@) && subject@ == self.reply_to@.skip(5),
                Err(e) => !is_address(self.reply_to@) && e is NoReplyAddress,
            },
    {
        match decode_reply_to(self.reply_to.as_slice()) {
            Some((stream_id, subject)) => Ok((stream_id, slice_to_vec(subject))),
            None => Err(ClientError::NoReplyAddress),
        }
    }

    /// Acknowledge: record the message as processed, so that a redelivery is
    /// recognised even after a restart, and give the command to queue. A
    /// failure to record is counted and does not hold up the ack.
    pub fn ack<S: Delivered>(&self, store: &mut S, metrics: &mut ClientMetrics, now: i64) -> (r:
        AckCmd)
        requires
            old(store).sound(),
        ensures
            final(store).sound(),
            r == (AckCmd { seq: self.seq, consumer_id: self.consumer_id, sub_id: self.sub_id }),
            match self.slot {
                Some(slot) => {
                    &&& crate::ackstore::table::touched(
                        old(store).table(),
                        slot,
                        final(store).table(),
                    )
                    &&& if old(store).is_closed() {
                        &&& final(store).table().slots@ == old(store).table().slots@
                        &&& *final(metrics) == (ClientMetrics {
                            ackstore_errors: old(metrics).ackstore_errors.wrapping_add(1),
                            ..*old(metrics)
                        })
                    } else {
                        &&& final(store).table().model(slot) == marked(
                            old(store).table().model(slot),
                            self.seq,
                            now,
                            old(store).limit(),
                        )
                        &&& *final(metrics) == (ClientMetrics {
                            ackstore_records: old(metrics).ackstore_records.wrapping_add(1),
                            ..*old(metrics)
                        })
                    }
                },
                None => *final(store) == *old(store) && *final(metrics) == *old(metrics),
            },
            self.slot is Some && !old(store).is_closed() && old(store).limit() > 0 && old(
                store,
            ).table().has_id(self.slot->0) ==> final(store).table().model(self.slot->0).seen(
                self.seq,
            ),
    {
        proof {
            if self.slot is Some && old(store).table().has_id(self.slot->0) {
                let t = old(store).table();
                let id = self.slot->0;
                old(store).sound_slots();
                let i = choose|i: int| t.id_at(id, i);
                t.model_at(i);
                assert(t.slots@[i].wf() && !t.slots@[i].state@.tombed);
                if old(store).limit() > 0 {
                    marked_is_seen(t.model(id), self.seq, now, old(store).limit());
                }
            }
        }
        match self.slot {
            Some(slot) => match store.slot_record(slot, self.seq, now) {
                Ok(_) => {
                    metrics.ackstore_records = metrics.ackstore_records.wrapping_add(1);
                },
                Err(_) => {
                    metrics.ackstore_errors = metrics.ackstore_errors.wrapping_add(1);
                },
            },
            None => {},
        }
        AckCmd { seq: self.seq, consumer_id: self.consumer_id, sub_id: self.sub_id }
    }

    /// The ack could not be queued: keep it for the sweep.
    pub fn ack_deferred(&self, relay: &mut AckRelay, metrics: &mut ClientMetrics, now_ms: u64)
        requires
            old(relay).wf(),
        ensures
            final(relay).wf(),
            final(relay).set(self.consumer_id) == old(relay).set(self.consumer_id).insert(self.seq),
            final(relay).times(self.consumer_id) == if old(relay).set(self.consumer_id).contains(
                self.seq,
            ) {
                old(relay).times(self.consumer_id)
            } else {
                old(relay).times(self.consumer_id).insert(self.seq, now_ms)
            },
            forall|c: u32|
                c != self.consumer_id ==> #[trigger] final(relay).slot(c) == old(relay).slot(c),
            final(relay).slot(self.consumer_id) is Some,
            old(relay).slot(self.consumer_id) is Some ==> final(relay).slot(
                self.consumer_id,
            )->0.generation == old(relay).slot(self.consumer_id)->0.generation,
            old(relay).slot(self.consumer_id) is None ==> final(relay).slot(
                self.consumer_id,
            )->0.generation == 0,
            *final(metrics) == (ClientMetrics {
                acks_deferred: old(metrics).acks_deferred.wrapping_add(1),
                ..*old(metrics)
            }),
    {
        let generation = relay.generation_of(self.consumer_id);
        relay.record_deferred(self.consumer_id, generation, self.seq, now_ms);
        assert(relay.set(self.consumer_id) =~= old(relay).set(self.consumer_id).insert(self.seq));
        metrics.acks_deferred = metrics.acks_deferred.wrapping_add(1);
    }

    /// Hand the message back for redelivery at once.
    pub fn nack(&self) -> (r: NackCmd)
        ensures
            r == (NackCmd {
                seq: self.seq,
                consumer_id: self.consumer_id,
                sub_id: self.sub_id,
                delay_ms: 0,
            }),
    {
        self.nack_delay(0)
    }

    /// Hand the message back for redelivery after a delay.
    pub fn nack_delay(&self, delay_ms: u32) -> (r: NackCmd)
        ensures
            r == (NackCmd {
                seq: self.seq,
                consumer_id: self.consumer_id,
                sub_id: self.sub_id,
                delay_ms,
            }),
    {
        NackCmd { seq: self.seq, consumer_id: self.consumer_id, sub_id: self.sub_id, delay_ms }
    }
}

/// Where a reply address keeps what it holds: a byte that marks it, the stream
/// in four bytes, low byte first, and the subject.
pub proof fn address_layout(a: Seq<u8>, stream_id: u32, subject: Seq<u8>)
    ensures
        is_address(a) <==> a.len() >= 5 && a[0] == 0xFF,
        is_address(a) ==> address_stream(a) == a[1] + a[2] * 0x100 + a[3] * 0x1_0000 + a[4]
            * 0x100_0000,
        reply_address(stream_id, subject).len() == 5 + subject.len(),
        reply_address(stream_id, subject)[0] == 0xFF,
        reply_address(stream_id, subject).subrange(5, 5 + subject.len() as int) == subject,
{
    reply_address_round_trip(stream_id, subject);
    le_bytes_len(stream_id as nat, 4);
    let w = reply_address(stream_id, subject);
    assert(w.subrange(5, 5 + subject.len() as int) =~= w.skip(5));
    if is_address(a) {
        let s = a.subrange(1, 5);
        pow256_values();
        le_value_round_trip(s);
        reveal_with_fuel(le_value, 5);
    }
}

} // verus!
