//! Delivery frames: what is in them and where it goes.
//!
//! A single delivery has a management header and twelve fixed bytes:
//! `consumer(4) subscription(4) subject length(2) padding(2)`, then the
//! subject and the payload.
//!
//! A batch has an envelope of sixteen bytes, `count(2) padding(2)`, and that
//! many entries of
//! `consumer(4) seq(8) subject length(2) reply length(2) data length(4)
//! subscription(4)` followed by the data: subject, reply address, payload.

use crate::ackstore::format::sub_vec;
use crate::consume::delivered::Delivered;
use crate::consume::message::{AckCmd, Message};
use crate::le::{get_u16, get_u32, get_u64, le_bytes, le_round_trip, le_value, pow256_values};
use crate::metrics::ClientMetrics;
use crate::state::subscriptions::{
    fanout_reaches_whoever_accepts, fanout_targets, Subscriptions, Target,
};
use vstd::prelude::*;
use vstd::slice::slice_to_vec;

verus! {

/// Fixed part of a batch entry.
pub const DELIVERY_ENTRY_HEADER_SIZE: usize = 24;

/// One delivery, with its bytes as sequences.
pub struct EntryView {
    pub consumer_id: u32,
    pub sub_id: u32,
    pub seq: u64,
    pub subject: Seq<u8>,
    pub reply_to: Seq<u8>,
    pub payload: Seq<u8>,
}

/// One delivery.
#[derive(Debug)]
pub struct Entry {
    pub consumer_id: u32,
    pub sub_id: u32,
    pub seq: u64,
    pub subject: Vec<u8>,
    pub reply_to: Vec<u8>,
    pub payload: Vec<u8>,
}

impl View for Entry {
    type V = EntryView;

    open spec fn view(&self) -> EntryView {
        EntryView {
            consumer_id: self.consumer_id,
            sub_id: self.sub_id,
            seq: self.seq,
            subject: self.subject@,
            reply_to: self.reply_to@,
            payload: self.payload@,
        }
    }
}

/// The views of a list of deliveries.
pub open spec fn entries_of(v: Seq<Entry>) -> Seq<EntryView> {
    v.map_values(|e: Entry| e@)
}

/// The number in `f[a..b]`.
pub open spec fn num(f: Seq<u8>, a: int, b: int) -> nat {
    le_value(f.subrange(a, b))
}

// ── single deliveries ──────────────────────────────────────────────────────
/// What a single delivery holds; `None` for one that is cut short.
pub open spec fn deliver_entry(f: Seq<u8>) -> Option<EntryView> {
    let end = 28 + num(f, 24, 26) as int;
    if f.len() < 28 || f.len() < end {
        None
    } else {
        Some(
            EntryView {
                consumer_id: num(f, 16, 20) as u32,
                sub_id: num(f, 20, 24) as u32,
                seq: num(f, 8, 16) as u64,
                subject: f.subrange(28, end),
                reply_to: Seq::empty(),
                payload: f.skip(end),
            },
        )
    }
}

/// Read a single delivery.
pub fn parse_deliver(frame: &[u8]) -> (r: Option<Entry>)
    ensures
        match r {
            Some(e) => deliver_entry(frame@) == Some(e@),
            None => deliver_entry(frame@) is None,
        },
{
    if frame.len() < 28 {
        return None;
    }
    let subject_len: usize = get_u16(frame, 24) as usize;
    if frame.len() - 28 < subject_len {
        return None;
    }
    let end: usize = 28 + subject_len;
    let payload = sub_vec(frame, end, frame.len());
    assert(payload@ =~= frame@.skip(end as int));
    let e = Entry {
        consumer_id: get_u32(frame, 16),
        sub_id: get_u32(frame, 20),
        seq: get_u64(frame, 8),
        subject: sub_vec(frame, 28, end),
        reply_to: Vec::new(),
        payload,
    };
    assert(e@.reply_to =~= Seq::empty());
    Some(e)
}

/// A single delivery as the broker writes it. The first half of the envelope
/// is not read here.
pub open spec fn deliver_bytes(envelope: Seq<u8>, pad: Seq<u8>, e: EntryView) -> Seq<u8> {
    envelope + le_bytes(e.seq as nat, 8) + le_bytes(e.consumer_id as nat, 4) + le_bytes(
        e.sub_id as nat,
        4,
    ) + le_bytes(e.subject.len(), 2) + pad + e.subject + e.payload
}

/// A single delivery reads back. It carries no reply address.
pub proof fn deliver_reads_back(envelope: Seq<u8>, pad: Seq<u8>, e: EntryView)
    requires
        envelope.len() == 8,
        pad.len() == 2,
        e.subject.len() <= 0xFFFF,
        e.reply_to.len() == 0,
    ensures
        deliver_entry(deliver_bytes(envelope, pad, e)) == Some(e),
{
    let f = deliver_bytes(envelope, pad, e);
    pow256_values();
    le_round_trip(e.seq as nat, 8);
    le_round_trip(e.consumer_id as nat, 4);
    le_round_trip(e.sub_id as nat, 4);
    le_round_trip(e.subject.len(), 2);
    assert(f.subrange(8, 16) =~= le_bytes(e.seq as nat, 8));
    assert(f.subrange(16, 20) =~= le_bytes(e.consumer_id as nat, 4));
    assert(f.subrange(20, 24) =~= le_bytes(e.sub_id as nat, 4));
    assert(f.subrange(24, 26) =~= le_bytes(e.subject.len(), 2));
    let end = 28 + e.subject.len() as int;
    assert(f.subrange(28, end) =~= e.subject);
    assert(f.skip(end) =~= e.payload);
    assert(e.reply_to =~= Seq::empty());
}

// ── batches ────────────────────────────────────────────────────────────────
/// Length of the data of the entry at `off`.
pub open spec fn data_len(f: Seq<u8>, off: int) -> int {
    num(f, off + 16, off + 20) as int
}

/// A sound entry stands at `off`: its data is there, and holds subject and
/// reply address.
pub open spec fn entry_ok(f: Seq<u8>, off: int) -> bool {
    &&& off + 24 <= f.len()
    &&& off + 24 + data_len(f, off) <= f.len()
    &&& num(f, off + 12, off + 14) + num(f, off + 14, off + 16) <= data_len(f, off)
}

/// The entry at `off`.
pub open spec fn entry_at(f: Seq<u8>, off: int) -> EntryView {
    let data = off + 24;
    let subject_end = data + num(f, off + 12, off + 14);
    let reply_end = subject_end + num(f, off + 14, off + 16);
    EntryView {
        consumer_id: num(f, off, off + 4) as u32,
        sub_id: num(f, off + 20, off + 24) as u32,
        seq: num(f, off + 4, off + 12) as u64,
        subject: f.subrange(data, subject_end),
        reply_to: f.subrange(subject_end, reply_end),
        payload: f.subrange(reply_end, data + data_len(f, off)),
    }
}

/// Up to `n` entries from `off` on; the first that is not sound ends them.
pub open spec fn entries_from(f: Seq<u8>, off: int, n: nat) -> Seq<EntryView>
    decreases n,
{
    if n == 0 || !entry_ok(f, off) {
        Seq::empty()
    } else {
        seq![entry_at(f, off)] + entries_from(
            f,
            off + 24 + data_len(f, off),
            (n - 1) as nat,
        )
    }
}

/// The deliveries of a batch.
pub open spec fn batch_entries(f: Seq<u8>) -> Seq<EntryView> {
    if f.len() < 20 {
        Seq::empty()
    } else {
        entries_from(f, 20, num(f, 16, 18))
    }
}

/// Read the entry at `off`, and where the next one starts.
fn parse_entry(frame: &[u8], off: usize) -> (r: Option<(Entry, usize)>)
    requires
        off <= frame@.len(),
    ensures
        match r {
            Some((e, next)) => {
                &&& entry_ok(frame@, off as int)
                &&& e@ == entry_at(frame@, off as int)
                &&& next == off + 24 + data_len(frame@, off as int)
                &&& next <= frame@.len()
            },
            None => !entry_ok(frame@, off as int),
        },
{
    if frame.len() - off < DELIVERY_ENTRY_HEADER_SIZE {
        return None;
    }
    let subj_len: usize = get_u16(frame, off + 12) as usize;
    let reply_len: usize = get_u16(frame, off + 14) as usize;
    let data_len: u64 = get_u32(frame, off + 16) as u64;
    let data: usize = off + 24;
    if ((frame.len() - data) as u64) < data_len {
        return None;
    }
    let data_len: usize = data_len as usize;
    if subj_len > data_len || reply_len > data_len - subj_len {
        return None;
    }
    let subject_end: usize = data + subj_len;
    let reply_end: usize = subject_end + reply_len;
    let next: usize = data + data_len;
    let e = Entry {
        consumer_id: get_u32(frame, off),
        sub_id: get_u32(frame, off + 20),
        seq: get_u64(frame, off + 4),
        subject: sub_vec(frame, data, subject_end),
        reply_to: sub_vec(frame, subject_end, reply_end),
        payload: sub_vec(frame, reply_end, next),
    };
    Some((e, next))
}

/// Read a batch.
pub fn parse_batch(frame: &[u8]) -> (r: Vec<Entry>)
    ensures
        entries_of(r@) == batch_entries(frame@),
{
    let mut out: Vec<Entry> = Vec::new();
    if frame.len() < 20 {
        assert(entries_of(out@) =~= Seq::empty());
        return out;
    }
    let count: u16 = get_u16(frame, 16);
    let mut left: u16 = count;
    let mut off: usize = 20;
    assert(entries_of(out@) + entries_from(frame@, 20, count as nat) =~= entries_from(
        frame@,
        20,
        count as nat,
    ));
    while left > 0
        invariant
            off <= frame@.len(),
            entries_from(frame@, 20, count as nat) == entries_of(out@) + entries_from(
                frame@,
                off as int,
                left as nat,
            ),
            num(frame@, 16, 18) == count,
            frame@.len() >= 20,
        decreases left,
    {
        match parse_entry(frame, off) {
            Some((e, next)) => {
                let ghost v = e@;
                let ghost o0 = out@;
                out.push(e);
                proof {
                    assert(entries_of(out@) =~= entries_of(o0).push(v));
                    let rest = entries_from(frame@, next as int, (left - 1) as nat);
                    assert(entries_from(frame@, off as int, left as nat) == seq![v] + rest);
                    assert(entries_of(out@) + rest =~= entries_of(o0) + (seq![v] + rest));
                }
                off = next;
                left = left - 1;
            },
            None => {
                assert(entries_of(out@) + Seq::<EntryView>::empty() =~= entries_of(out@));
                return out;
            },
        }
    }
    assert(entries_of(out@) + Seq::<EntryView>::empty() =~= entries_of(out@));
    out
}

/// The wire form of a batch entry.
pub open spec fn entry_bytes(e: EntryView) -> Seq<u8> {
    le_bytes(e.consumer_id as nat, 4) + le_bytes(e.seq as nat, 8) + le_bytes(e.subject.len(), 2)
        + le_bytes(e.reply_to.len(), 2) + le_bytes(
        e.subject.len() + e.reply_to.len() + e.payload.len(),
        4,
    ) + le_bytes(e.sub_id as nat, 4) + e.subject + e.reply_to + e.payload
}

/// The lengths of an entry fit their fields.
pub open spec fn entry_fits(e: EntryView) -> bool {
    &&& e.subject.len() < 0x1_0000
    &&& e.reply_to.len() < 0x1_0000
    &&& e.subject.len() + e.reply_to.len() + e.payload.len() < 0x1_0000_0000
}

/// The wire form of a list of entries.
pub open spec fn all_entry_bytes(es: Seq<EntryView>) -> Seq<u8>
    decreases es.len(),
{
    if es.len() == 0 {
        Seq::empty()
    } else {
        entry_bytes(es[0]) + all_entry_bytes(es.skip(1))
    }
}

/// An entry reads back from where it was written.
proof fn entry_reads_back(f: Seq<u8>, off: int, e: EntryView)
    requires
        0 <= off,
        entry_fits(e),
        off + entry_bytes(e).len() <= f.len(),
        f.subrange(off, off + entry_bytes(e).len()) == entry_bytes(e),
    ensures
        entry_ok(f, off),
        entry_at(f, off) == e,
        off + 24 + data_len(f, off) == off + entry_bytes(e).len(),
{
    let b = entry_bytes(e);
    let total = e.subject.len() + e.reply_to.len() + e.payload.len();
    pow256_values();
    le_round_trip(e.consumer_id as nat, 4);
    le_round_trip(e.seq as nat, 8);
    le_round_trip(e.subject.len(), 2);
    le_round_trip(e.reply_to.len(), 2);
    le_round_trip(total, 4);
    le_round_trip(e.sub_id as nat, 4);
    assert(b.len() == 24 + total);
    assert forall|x: int, y: int| 0 <= x <= y <= b.len() implies f.subrange(off + x, off + y)
        == #[trigger] b.subrange(x, y) by {
        assert(f.subrange(off + x, off + y) =~= f.subrange(off, off + b.len()).subrange(x, y));
    }
    assert(b.subrange(0, 4) =~= le_bytes(e.consumer_id as nat, 4));
    assert(b.subrange(4, 12) =~= le_bytes(e.seq as nat, 8));
    assert(b.subrange(12, 14) =~= le_bytes(e.subject.len(), 2));
    assert(b.subrange(14, 16) =~= le_bytes(e.reply_to.len(), 2));
    assert(b.subrange(16, 20) =~= le_bytes(total, 4));
    assert(b.subrange(20, 24) =~= le_bytes(e.sub_id as nat, 4));
    let s = 24 + e.subject.len() as int;
    let r = s + e.reply_to.len() as int;
    assert(b.subrange(24, s) =~= e.subject);
    assert(b.subrange(s, r) =~= e.reply_to);
    assert(b.subrange(r, 24 + total as int) =~= e.payload);
}

proof fn entries_read_back(f: Seq<u8>, off: int, es: Seq<EntryView>)
    requires
        0 <= off,
        forall|i: int| 0 <= i < es.len() ==> entry_fits(#[trigger] es[i]),
        off + all_entry_bytes(es).len() <= f.len(),
        f.subrange(off, off + all_entry_bytes(es).len()) == all_entry_bytes(es),
    ensures
        entries_from(f, off, es.len()) == es,
    decreases es.len(),
{
    if es.len() > 0 {
        let all = all_entry_bytes(es);
        let b = entry_bytes(es[0]);
        let rest = all_entry_bytes(es.skip(1));
        assert(f.subrange(off, off + b.len()) =~= all.subrange(0, b.len() as int));
        assert(all.subrange(0, b.len() as int) =~= b);
        entry_reads_back(f, off, es[0]);
        let next = off + b.len() as int;
        assert(f.subrange(next, next + rest.len()) =~= all.subrange(
            b.len() as int,
            all.len() as int,
        ));
        assert(all.subrange(b.len() as int, all.len() as int) =~= rest);
        assert forall|i: int| 0 <= i < es.skip(1).len() implies entry_fits(
            #[trigger] es.skip(1)[i],
        ) by {
            assert(es.skip(1)[i] == es[i + 1]);
        }
        entries_read_back(f, next, es.skip(1));
        assert(seq![es[0]] + es.skip(1) =~= es);
    } else {
        assert(es =~= Seq::empty());
    }
}

/// Every delivery that the broker packs into a batch reads back, in order,
/// whatever the envelope holds.
pub proof fn batch_reads_back(envelope: Seq<u8>, es: Seq<EntryView>)
    requires
        envelope.len() == 16,
        es.len() < 0x1_0000,
        forall|i: int| 0 <= i < es.len() ==> entry_fits(#[trigger] es[i]),
    ensures
        batch_entries(
            envelope + le_bytes(es.len(), 2) + seq![0u8, 0u8] + all_entry_bytes(es),
        ) == es,
{
    let f = envelope + le_bytes(es.len(), 2) + seq![0u8, 0u8] + all_entry_bytes(es);
    pow256_values();
    le_round_trip(es.len(), 2);
    assert(f.subrange(16, 18) =~= le_bytes(es.len(), 2));
    assert(f.subrange(20, 20 + all_entry_bytes(es).len() as int) =~= all_entry_bytes(es));
    entries_read_back(f, 20, es);
}

// ── routing ────────────────────────────────────────────────────────────────
/// Where one delivery goes.
#[derive(Debug)]
pub enum Routed {
    /// No such subscription any more.
    Nowhere,
    /// Processed before: acknowledge it again, and run no handler.
    Duplicate(AckCmd),
    /// One message per destination.
    Messages(Vec<(Target, Message)>),
}

/// `m` is the message that entry `e` becomes for a destination.
pub open spec fn carries(
    m: Message,
    e: EntryView,
    stream_id: u32,
    slot: Option<u32>,
    t: Target,
) -> bool {
    &&& m.seq == e.seq
    &&& m.consumer_id == e.consumer_id
    &&& m.stream_id == stream_id
    &&& m.sub_id == t.sub_id
    &&& m.subject@ == e.subject
    &&& m.reply_to@ == e.reply_to
    &&& m.payload@ == e.payload
    &&& m.slot == slot
}

/// The destinations of an entry.
pub open spec fn destinations(subs: Subscriptions, sub_id: u32, subject: Seq<u8>) -> Seq<Target> {
    let route = subs.by_sub@[sub_id];
    let list = subs.subs_of(route.consumer_id);
    if route.fanout {
        fanout_targets(list, subject)
    } else {
        seq![Target { sub_id, channel: list[route.idx as int].channel }]
    }
}

/// Route one delivery. Whether it is a duplicate is asked once, before the
/// fan-out: the slot belongs to the consumer, and the first subscription must
/// not make the message a duplicate for the others.
pub fn deliver<S: Delivered>(
    subs: &Subscriptions,
    store: &S,
    metrics: &mut ClientMetrics,
    e: &Entry,
) -> (r: Routed)
    requires
        subs.wf(),
        store.sound(),
    ensures
        ({
            let route = subs.by_sub@[e.sub_id];
            if !subs.by_sub@.contains_key(e.sub_id) {
                r is Nowhere && *final(metrics) == *old(metrics)
            } else if route.dedup matches Some(slot) && store.table().model(slot).seen(e.seq) {
                &&& r == Routed::Duplicate(
                    AckCmd { seq: e.seq, consumer_id: e.consumer_id, sub_id: e.sub_id },
                )
                &&& *final(metrics) == (ClientMetrics {
                    dedup_hits: old(metrics).dedup_hits.wrapping_add(1),
                    ..*old(metrics)
                })
            } else {
                let to = destinations(*subs, e.sub_id, e.subject@);
                &&& r matches Routed::Messages(out)
                &&& out@.len() == to.len()
                &&& forall|i: int|
                    0 <= i < to.len() ==> (#[trigger] out@[i]).0 == to[i] && carries(
                        out@[i].1,
                        e@,
                        route.stream_id,
                        route.dedup,
                        to[i],
                    )
                &&& forall|i: int|
                    0 <= i < out@.len() ==> {
                        &&& (#[trigger] out@[i]).1.seq == e.seq
                        &&& out@[i].1.consumer_id == e.consumer_id
                        &&& out@[i].1.stream_id == route.stream_id
                        &&& out@[i].1.sub_id == out@[i].0.sub_id
                        &&& out@[i].1.subject@ == e.subject@
                        &&& out@[i].1.reply_to@ == e.reply_to@
                        &&& out@[i].1.payload@ == e.payload@
                        &&& out@[i].1.slot == route.dedup
                    }
                &&& final(metrics).deliveries_received as int == (old(metrics).deliveries_received
                    + to.len()) % 0x1_0000_0000_0000_0000
                &&& *final(metrics) == (ClientMetrics {
                    deliveries_received: final(metrics).deliveries_received,
                    ..*old(metrics)
                })
            }
        }),
{
    let d = match subs.route(e.sub_id, e.subject.as_slice()) {
        Some(d) => d,
        None => {
            return Routed::Nowhere;
        },
    };
    match d.dedup {
        Some(slot) => {
            if store.slot_seen(slot, e.seq) {
                metrics.dedup_hits = metrics.dedup_hits.wrapping_add(1);
                return Routed::Duplicate(
                    AckCmd { seq: e.seq, consumer_id: e.consumer_id, sub_id: e.sub_id },
                );
            }
        },
        None => {},
    }
    let ghost m0 = *metrics;
    let mut out: Vec<(Target, Message)> = Vec::new();
    let mut i: usize = 0;
    while i < d.targets.len()
        invariant
            i <= d.targets@.len(),
            out@.len() == i,
            forall|j: int|
                0 <= j < i ==> (#[trigger] out@[j]).0 == d.targets@[j] && carries(
                    out@[j].1,
                    e@,
                    d.stream_id,
                    d.dedup,
                    d.targets@[j],
                ),
            metrics.deliveries_received as int == (m0.deliveries_received + i)
                % 0x1_0000_0000_0000_0000,
            *metrics == (ClientMetrics { deliveries_received: metrics.deliveries_received, ..m0 }),
        decreases d.targets@.len() - i,
    {
        let t: Target = d.targets[i];
        let m = Message {
            seq: e.seq,
            consumer_id: e.consumer_id,
            stream_id: d.stream_id,
            sub_id: t.sub_id,
            subject: slice_to_vec(e.subject.as_slice()),
            reply_to: slice_to_vec(e.reply_to.as_slice()),
            payload: slice_to_vec(e.payload.as_slice()),
            slot: d.dedup,
        };
        metrics.deliveries_received = metrics.deliveries_received.wrapping_add(1);
        out.push((t, m));
        i = i + 1;
    }
    Routed::Messages(out)
}

// ── laws ───────────────────────────────────────────────────────────────────
/// A delivery goes to the subscription that the broker has picked, or, in a
/// fanout, to exactly the subscriptions of the consumer whose filter accepts
/// the subject, each on its own channel and each once.
pub proof fn destinations_are_right(subs: Subscriptions, sub_id: u32, subject: Seq<u8>, t: Target)
    requires
        subs.wf(),
        subs.by_sub@.contains_key(sub_id),
    ensures
        ({
            let to = destinations(subs, sub_id, subject);
            let cid = subs.by_sub@[sub_id].consumer_id;
            let list = subs.by_consumer@[cid].subs@;
            &&& !subs.by_consumer@[cid].fanout ==> to.len() == 1 && to[0].sub_id == sub_id
                && exists|i: int|
                0 <= i < list.len() && (#[trigger] list[i]).id == sub_id && list[i].channel
                    == to[0].channel
            &&& subs.by_consumer@[cid].fanout ==> to.no_duplicates() && (to.contains(t)
                <==> exists|i: int|
                0 <= i < list.len() && (#[trigger] list[i]).matcher.lets(subject) && list[i].id
                    == t.sub_id && list[i].channel == t.channel)
        }),
{
    let route = subs.by_sub@[sub_id];
    let list = subs.by_consumer@[route.consumer_id].subs@;
    assert(subs.route_ok(sub_id));
    assert(list[route.idx as int].id == sub_id);
    fanout_reaches_whoever_accepts(list, subject, t);
}

/// A single delivery that is cut short within its header or its subject is not
/// taken for one.
pub proof fn cut_delivery_is_refused(envelope: Seq<u8>, pad: Seq<u8>, e: EntryView, n: int)
    requires
        envelope.len() == 8,
        pad.len() == 2,
        e.subject.len() <= 0xFFFF,
        0 <= n < 28 + e.subject.len(),
    ensures
        deliver_entry(deliver_bytes(envelope, pad, e).take(n)) is None,
{
    let f = deliver_bytes(envelope, pad, e);
    let t = f.take(n);
    crate::le::le_bytes_len(e.seq as nat, 8);
    crate::le::le_bytes_len(e.consumer_id as nat, 4);
    crate::le::le_bytes_len(e.sub_id as nat, 4);
    crate::le::le_bytes_len(e.subject.len(), 2);
    if n >= 28 {
        pow256_values();
        le_round_trip(e.subject.len(), 2);
        assert(t.subrange(24, 26) =~= le_bytes(e.subject.len(), 2));
    }
}

/// The bytes of an entry are 24 and its data.
proof fn entry_bytes_len(e: EntryView)
    ensures
        entry_bytes(e).len() == 24 + e.subject.len() + e.reply_to.len() + e.payload.len(),
{
    crate::le::le_bytes_len(e.consumer_id as nat, 4);
    crate::le::le_bytes_len(e.seq as nat, 8);
    crate::le::le_bytes_len(e.subject.len(), 2);
    crate::le::le_bytes_len(e.reply_to.len(), 2);
    crate::le::le_bytes_len(e.subject.len() + e.reply_to.len() + e.payload.len(), 4);
    crate::le::le_bytes_len(e.sub_id as nat, 4);
}

/// What is whole of a batch that is cut short is read.
proof fn whole_entries_read_back(f: Seq<u8>, off: int, es: Seq<EntryView>, n: nat, k: int)
    requires
        0 <= off,
        0 <= k <= es.len() <= n,
        forall|i: int| 0 <= i < es.len() ==> entry_fits(#[trigger] es[i]),
        off + all_entry_bytes(es.take(k)).len() <= f.len(),
        f.subrange(off, off + all_entry_bytes(es.take(k)).len()) == all_entry_bytes(es.take(k)),
    ensures
        entries_from(f, off, n).len() >= k,
        entries_from(f, off, n).take(k) == es.take(k),
    decreases k,
{
    let all = entries_from(f, off, n);
    if k == 0 {
        assert(all.take(0) =~= es.take(0));
    } else {
        let head = es.take(k);
        let bytes = all_entry_bytes(head);
        let b = entry_bytes(es[0]);
        let tail = es.skip(1);
        assert(head[0] == es[0]);
        assert(head.skip(1) =~= tail.take(k - 1));
        let rest = all_entry_bytes(tail.take(k - 1));
        assert(f.subrange(off, off + b.len()) =~= bytes.subrange(0, b.len() as int));
        assert(bytes.subrange(0, b.len() as int) =~= b);
        entry_reads_back(f, off, es[0]);
        let next = off + b.len() as int;
        assert(f.subrange(next, next + rest.len()) =~= bytes.subrange(
            b.len() as int,
            bytes.len() as int,
        ));
        assert(bytes.subrange(b.len() as int, bytes.len() as int) =~= rest);
        assert forall|i: int| 0 <= i < tail.len() implies entry_fits(#[trigger] tail[i]) by {
            assert(tail[i] == es[i + 1]);
        }
        whole_entries_read_back(f, next, tail, (n - 1) as nat, k - 1);
        let more = entries_from(f, next, (n - 1) as nat);
        assert(all == seq![es[0]] + more);
        assert(all.take(k) =~= seq![es[0]] + more.take(k - 1));
        assert(es.take(k) =~= seq![es[0]] + tail.take(k - 1));
    }
}

/// A batch that is cut short loses only what is cut: the deliveries that are
/// whole are read, in order.
pub proof fn cut_batch_keeps_what_is_whole(envelope: Seq<u8>, es: Seq<EntryView>, k: int, n: int)
    requires
        envelope.len() == 16,
        es.len() < 0x1_0000,
        forall|i: int| 0 <= i < es.len() ==> entry_fits(#[trigger] es[i]),
        0 <= k <= es.len(),
        20 + all_entry_bytes(es.take(k)).len() <= n <= 20 + all_entry_bytes(es).len(),
    ensures
        ({
            let f = envelope + le_bytes(es.len(), 2) + seq![0u8, 0u8] + all_entry_bytes(es);
            let got = batch_entries(f.take(n));
            got.len() >= k && got.take(k) == es.take(k)
        }),
{
    let f = envelope + le_bytes(es.len(), 2) + seq![0u8, 0u8] + all_entry_bytes(es);
    let t = f.take(n);
    pow256_values();
    le_round_trip(es.len(), 2);
    assert(t.subrange(16, 18) =~= le_bytes(es.len(), 2));
    let part = all_entry_bytes(es.take(k));
    prefix_bytes(es, k);
    assert(t.subrange(20, 20 + part.len() as int) =~= all_entry_bytes(es).take(part.len() as int));
    whole_entries_read_back(t, 20, es, es.len(), k);
}

proof fn prefix_bytes(es: Seq<EntryView>, k: int)
    requires
        0 <= k <= es.len(),
    ensures
        all_entry_bytes(es.take(k)).len() <= all_entry_bytes(es).len(),
        all_entry_bytes(es).take(all_entry_bytes(es.take(k)).len() as int) == all_entry_bytes(
            es.take(k),
        ),
    decreases k,
{
    if k > 0 {
        let tail = es.skip(1);
        prefix_bytes(tail, k - 1);
        assert(es.take(k).skip(1) =~= tail.take(k - 1));
        let b = entry_bytes(es[0]);
        let p = all_entry_bytes(tail.take(k - 1));
        assert(all_entry_bytes(es.take(k)) == b + p);
        assert((b + all_entry_bytes(tail)).take((b + p).len() as int) =~= b + all_entry_bytes(
            tail,
        ).take(p.len() as int));
    } else {
        assert(all_entry_bytes(es).take(0) =~= all_entry_bytes(es.take(0)));
    }
}

/// Where a single delivery keeps what it holds.
pub proof fn delivery_layout(f: Seq<u8>)
    ensures
        deliver_entry(f) is Some <==> f.len() >= 28 && f.len() >= 28 + le_value(f.subrange(24, 26)),
        deliver_entry(f) matches Some(e) ==> {
            let n = le_value(f.subrange(24, 26)) as int;
            &&& e.seq == le_value(f.subrange(8, 16))
            &&& e.consumer_id == le_value(f.subrange(16, 20))
            &&& e.sub_id == le_value(f.subrange(20, 24))
            &&& e.subject == f.subrange(28, 28 + n)
            &&& e.reply_to.len() == 0
            &&& e.payload == f.subrange(28 + n, f.len() as int)
        },
{
    if deliver_entry(f) is Some {
        let n = le_value(f.subrange(24, 26)) as int;
        pow256_values();
        crate::le::le_value_round_trip(f.subrange(8, 16));
        crate::le::le_value_round_trip(f.subrange(16, 20));
        crate::le::le_value_round_trip(f.subrange(20, 24));
        assert(f.skip(28 + n) =~= f.subrange(28 + n, f.len() as int));
    }
}

/// Where a batch keeps the number of its deliveries and what the first of them
/// holds. One whose lengths reach past the end, or past its own data, is not
/// read.
pub proof fn batch_layout(f: Seq<u8>)
    ensures
        ({
            let subject = le_value(f.subrange(32, 34)) as int;
            let reply = le_value(f.subrange(34, 36)) as int;
            let data = le_value(f.subrange(36, 40)) as int;
            let got = batch_entries(f);
            &&& got.len() > 0 <==> f.len() >= 44 && le_value(f.subrange(16, 18)) > 0 && f.len()
                >= 44 + data && subject + reply <= data
            &&& f.len() >= 20 ==> got.len() <= le_value(f.subrange(16, 18))
            &&& got.len() > 0 ==> {
                &&& got[0].consumer_id == le_value(f.subrange(20, 24))
                &&& got[0].seq == le_value(f.subrange(24, 32))
                &&& got[0].sub_id == le_value(f.subrange(40, 44))
                &&& got[0].subject == f.subrange(44, 44 + subject)
                &&& got[0].reply_to == f.subrange(44 + subject, 44 + subject + reply)
                &&& got[0].payload == f.subrange(44 + subject + reply, 44 + data)
            }
        }),
{
    if f.len() >= 20 {
        at_most(f, 20, le_value(f.subrange(16, 18)));
    }
    if batch_entries(f).len() > 0 {
        pow256_values();
        crate::le::le_value_round_trip(f.subrange(20, 24));
        crate::le::le_value_round_trip(f.subrange(24, 32));
        crate::le::le_value_round_trip(f.subrange(40, 44));
    }
}

proof fn at_most(f: Seq<u8>, off: int, n: nat)
    ensures
        entries_from(f, off, n).len() <= n,
    decreases n,
{
    if n > 0 && entry_ok(f, off) {
        at_most(f, off + 24 + data_len(f, off), (n - 1) as nat);
    }
}

} // verus!
