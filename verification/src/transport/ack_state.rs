//! What the broker reports about acks: its cursor for a consumer, asked for
//! after every connect, and the confirmation of acks that were sent again.

use crate::ackrel::pending::{later, over, smallest, two32, up_to};
use crate::ackrel::relay::AckRelay;
use crate::ackstore::table::touched;
use crate::consume::batch::AckBatch;
use crate::consume::delivered::{cursor_hides_nothing, Delivered};
use crate::metrics::ClientMetrics;
use crate::state::seq::{counter_after, SeqAllocator};
use crate::state::subscriptions::Subscriptions;
use vstd::prelude::*;

verus! {

/// The broker vouches for the cursor.
pub const ACK_STATUS_OK: u32 = 0;

/// The broker does not know the consumer.
pub const ACK_STATUS_CONSUMER_UNKNOWN: u32 = 3;

/// Deferred acks that one frame carries.
pub const ACK_CHUNK: usize = 1000;

/// The broker's view of one consumer.
#[derive(Debug, Clone, Copy, PartialEq, Eq, Structural)]
pub struct AckStateRep {
    pub consumer_id: u32,
    pub generation: u32,
    /// Everything up to here is acknowledged.
    pub cursor: u64,
    /// Lowest message that the broker still has.
    pub low_seq: u64,
    /// Highest message that the broker has.
    pub high_seq: u64,
    pub status: u32,
}

/// The broker confirms acks of one consumer.
#[derive(Debug, Clone, Copy, PartialEq, Eq, Structural)]
pub struct AckBatchResp {
    pub consumer_id: u32,
    pub new_cursor: u64,
}

/// The delivered-set slot of a consumer.
pub open spec fn slot_of(subs: Subscriptions, consumer_id: u32) -> Option<u32> {
    if subs.by_consumer@.contains_key(consumer_id) {
        subs.by_consumer@[consumer_id].dedup
    } else {
        None
    }
}

/// The store after a cursor: the consumer's slot has lost everything at or
/// below it, and nothing else has changed. A closed store is as it was.
pub open spec fn store_at_cursor<S: Delivered>(
    s0: S,
    s1: S,
    slot: Option<u32>,
    cursor: u64,
) -> bool {
    match slot {
        Some(id) => {
            &&& touched(s0.table(), id, s1.table())
            &&& if s0.is_closed() {
                s1.table().slots@ == s0.table().slots@
            } else {
                s1.table().model(id) == s0.table().model(id).dropped_to(cursor)
            }
        },
        None => s1 == s0,
    }
}

/// The store refuses a cursor: it is closed.
pub open spec fn cursor_fails<S: Delivered>(s0: S, slot: Option<u32>) -> bool {
    slot is Some && s0.is_closed()
}

/// Apply a cursor to the delivered set of a consumer. A failure is counted.
fn confirm_cursor<S: Delivered>(
    subs: &Subscriptions,
    store: &mut S,
    metrics: &mut ClientMetrics,
    consumer_id: u32,
    cursor: u64,
    now: i64,
)
    requires
        old(store).sound(),
    ensures
        final(store).sound(),
        store_at_cursor(*old(store), *final(store), slot_of(*subs, consumer_id), cursor),
        forall|slot: u32, s: u64|
            !old(store).is_closed() && subs.by_consumer@.contains_key(consumer_id)
                && subs.by_consumer@[consumer_id].dedup == Some(slot) ==> (
            #[trigger] final(store).table().model(slot).seen(s) <==> old(store).table().model(
                slot,
            ).seen(s) && s > cursor),
        !subs.by_consumer@.contains_key(consumer_id) || subs.by_consumer@[consumer_id].dedup is None
            ==> *final(store) == *old(store),
        *final(metrics) == (ClientMetrics {
            ackstore_errors: if cursor_fails(*old(store), slot_of(*subs, consumer_id)) {
                old(metrics).ackstore_errors.wrapping_add(1)
            } else {
                old(metrics).ackstore_errors
            },
            ..*old(metrics)
        }),
{
    let ghost s0 = *store;
    match subs.dedup_of(consumer_id) {
        Some(slot) => match store.slot_confirm_up_to(slot, cursor, now) {
            Ok(_) => {},
            Err(_) => {
                metrics.ackstore_errors = metrics.ackstore_errors.wrapping_add(1);
            },
        },
        None => {},
    }
    proof {
        assert forall|slot: u32, s: u64|
            !s0.is_closed() && subs.by_consumer@.contains_key(consumer_id)
                && subs.by_consumer@[consumer_id].dedup == Some(slot) implies (
        #[trigger] store.table().model(slot).seen(s) <==> s0.table().model(slot).seen(s) && s
            > cursor) by {
            cursor_reaches_one_slot(s0, *store, slot, cursor, slot, s);
        }
    }
}

/// Number of chunks that `n` acks make.
pub open spec fn chunk_count(n: nat) -> nat {
    (n + 999) / 1000
}

/// Chunk number `i` of a list.
pub open spec fn chunk(s: Seq<u64>, i: int) -> Seq<u64> {
    s.subrange(
        i * 1000,
        if (i + 1) * 1000 < s.len() {
            (i + 1) * 1000
        } else {
            s.len() as int
        },
    )
}

/// `out` sends `seqs` for a consumer, chunk by chunk, numbered from `start`.
pub open spec fn sends(
    out: Seq<AckBatch>,
    start: u64,
    consumer_id: u32,
    generation: u32,
    seqs: Seq<u64>,
) -> bool {
    &&& out.len() == chunk_count(seqs.len())
    &&& forall|i: int|
        0 <= i < out.len() ==> {
            &&& (#[trigger] out[i]).number == counter_after(start, i as nat)
            &&& out[i].consumer_id == consumer_id
            &&& out[i].generation == generation
            &&& out[i].seqs@ == chunk(seqs, i)
        }
}

/// Cut a list of acks into frames.
fn chunk_frames(
    pending: &Vec<u64>,
    consumer_id: u32,
    generation: u32,
    seqs: &mut SeqAllocator,
) -> (r: Vec<AckBatch>)
    ensures
        sends(r@, old(seqs).next, consumer_id, generation, pending@),
        final(seqs).next == counter_after(old(seqs).next, chunk_count(pending@.len())),
{
    let ghost start = seqs.next;
    let mut out: Vec<AckBatch> = Vec::new();
    let mut at: usize = 0;
    while at < pending.len()
        invariant
            at <= pending@.len(),
            at < pending@.len() ==> at == out@.len() * 1000,
            at == pending@.len() ==> out@.len() == chunk_count(pending@.len()),
            out@.len() <= chunk_count(pending@.len()),
            seqs.next == counter_after(start, out@.len()),
            forall|i: int|
                0 <= i < out@.len() ==> {
                    &&& (#[trigger] out@[i]).number == counter_after(start, i as nat)
                    &&& out@[i].consumer_id == consumer_id
                    &&& out@[i].generation == generation
                    &&& out@[i].seqs@ == chunk(pending@, i)
                },
        decreases pending@.len() - at,
    {
        let left: usize = pending.len() - at;
        let n: usize = if left < ACK_CHUNK {
            left
        } else {
            ACK_CHUNK
        };
        let number: u64 = seqs.next();
        let part: Vec<u64> = copy_range(pending, at, at + n);
        assert(part@ =~= chunk(pending@, out@.len() as int));
        out.push(AckBatch { number, consumer_id, generation, seqs: part });
        at = at + n;
    }
    out
}

/// Copy `v[a..b]`.
fn copy_range(v: &Vec<u64>, a: usize, b: usize) -> (r: Vec<u64>)
    requires
        a <= b <= v@.len(),
    ensures
        r@ == v@.subrange(a as int, b as int),
{
    let mut out: Vec<u64> = Vec::new();
    let mut i: usize = a;
    while i < b
        invariant
            a <= i <= b <= v@.len(),
            out@ == v@.subrange(a as int, i as int),
        decreases b - i,
    {
        out.push(v[i]);
        i = i + 1;
        assert(out@ =~= v@.subrange(a as int, i as int));
    }
    out
}

/// What an ack-state reply leads to.
#[derive(Debug)]
pub struct AckStateOutcome {
    /// Deferred acks to send again.
    pub frames: Vec<AckBatch>,
    /// The highest deferred ack, where it is above everything the broker has.
    pub above_high: Option<u64>,
}

/// The generation that the relay has of a consumer.
pub open spec fn generation_in(relay: AckRelay, consumer_id: u32) -> u32 {
    match relay.slot(consumer_id) {
        Some(p) => p.generation,
        None => 0,
    }
}

/// What is still deferred after the broker's cursor and retention floor.
pub open spec fn still_deferred(m: Map<u64, u64>, rep: AckStateRep) -> Map<u64, u64> {
    later(
        later(m, rep.cursor),
        if rep.low_seq == 0 {
            0
        } else {
            (rep.low_seq - 1) as u64
        },
    )
}

/// The deferred acks of a consumer after the broker's view of it. Without the
/// broker's word they stay as they are; a new generation drops them.
pub open spec fn deferred_after(relay: AckRelay, rep: AckStateRep) -> Map<u64, u64> {
    let m = relay.times(rep.consumer_id);
    if rep.status != ACK_STATUS_OK {
        m
    } else if rep.generation != generation_in(relay, rep.consumer_id) {
        Map::empty()
    } else {
        still_deferred(m, rep)
    }
}

/// Take in the broker's view of a consumer.
///
/// The delivered set follows the cursor only where the broker vouches for it:
/// an entry kept too long costs a little disk, one dropped too early costs a
/// duplicate execution. It does so whatever the generation is, because the
/// slot belongs to names that outlive sessions. The same goes for the deferred
/// acks: without the broker's word nothing is dropped.
///
/// A new generation drops the deferred acks of the consumer. Otherwise what
/// the broker has confirmed, or no longer retains, is dropped, and the rest
/// is sent again.
pub fn on_ack_state<S: Delivered>(
    rep: &AckStateRep,
    subs: &Subscriptions,
    store: &mut S,
    relay: &mut AckRelay,
    seqs: &mut SeqAllocator,
    metrics: &mut ClientMetrics,
    now: i64,
) -> (r: AckStateOutcome)
    requires
        old(store).sound(),
        old(relay).wf(),
    ensures
        final(store).sound(),
        final(relay).wf(),
        rep.status == ACK_STATUS_OK ==> store_at_cursor(
            *old(store),
            *final(store),
            slot_of(*subs, rep.consumer_id),
            rep.cursor,
        ),
        forall|slot: u32, s: u64|
            rep.status == 0 && !old(store).is_closed() && subs.by_consumer@.contains_key(rep.consumer_id)
                && subs.by_consumer@[rep.consumer_id].dedup == Some(slot) ==> (
            #[trigger] final(store).table().model(slot).seen(s) <==> old(store).table().model(
                slot,
            ).seen(s) && s > rep.cursor),
        !subs.by_consumer@.contains_key(rep.consumer_id) || subs.by_consumer@[rep.consumer_id].dedup is None
            ==> *final(store) == *old(store),
        rep.status != ACK_STATUS_OK ==> *final(store) == *old(store) && *final(relay) == *old(
            relay,
        ),
        forall|c: u32|
            c != rep.consumer_id ==> #[trigger] final(relay).slot(c) == old(relay).slot(c),
        rep.status == ACK_STATUS_OK ==> generation_in(*final(relay), rep.consumer_id)
            == rep.generation,
        final(relay).times(rep.consumer_id) == deferred_after(*old(relay), *rep),
        ({
            let list = if rep.generation == generation_in(*old(relay), rep.consumer_id) {
                smallest(deferred_after(*old(relay), *rep).dom(), usize::MAX as nat)
            } else {
                Seq::empty()
            };
            &&& sends(r.frames@, old(seqs).next, rep.consumer_id, rep.generation, list)
            &&& final(seqs).next == counter_after(old(seqs).next, chunk_count(list.len()))
            &&& r.above_high == if list.len() != 0 && list.last() > rep.high_seq {
                Some(list.last())
            } else {
                None
            }
        }),
        *final(metrics) == (ClientMetrics {
            ackstore_errors: if rep.status == ACK_STATUS_OK && cursor_fails(
                *old(store),
                slot_of(*subs, rep.consumer_id),
            ) {
                old(metrics).ackstore_errors.wrapping_add(1)
            } else {
                old(metrics).ackstore_errors
            },
            suspicious_seq_over_high: if r.above_high is Some {
                old(metrics).suspicious_seq_over_high.wrapping_add(1)
            } else {
                old(metrics).suspicious_seq_over_high
            },
            ..*old(metrics)
        }),
{
    let same: bool = rep.generation == relay.generation_of(rep.consumer_id);
    if rep.status == ACK_STATUS_OK {
        confirm_cursor(subs, store, metrics, rep.consumer_id, rep.cursor, now);
        if same {
            relay.purge_up_to(rep.consumer_id, rep.cursor);
            relay.purge_up_to(rep.consumer_id, rep.low_seq.saturating_sub(1));
        } else {
            relay.ensure(rep.consumer_id, rep.generation);
        }
    }
    if !same {
        return AckStateOutcome { frames: Vec::new(), above_high: None };
    }
    let pending = relay.drain_ascending(rep.consumer_id, usize::MAX);
    proof {
        dom_of_times(*relay, rep.consumer_id);
    }
    let mut above_high: Option<u64> = None;
    if pending.len() > 0 {
        let max: u64 = pending[pending.len() - 1];
        if max > rep.high_seq {
            metrics.suspicious_seq_over_high = metrics.suspicious_seq_over_high.wrapping_add(1);
            above_high = Some(max);
        }
    }
    let frames = chunk_frames(&pending, rep.consumer_id, rep.generation, seqs);
    AckStateOutcome { frames, above_high }
}

proof fn dom_of_times(relay: AckRelay, cid: u32)
    ensures
        relay.times(cid).dom() == relay.set(cid),
{
    assert(relay.times(cid).dom() =~= relay.set(cid));
}

/// Take in a confirmation: drop what it covers from the deferred acks and
/// from the delivered set. Returns how many deferred acks that was (modulo
/// 2^32).
pub fn on_ack_batch_resp<S: Delivered>(
    rep: &AckBatchResp,
    subs: &Subscriptions,
    store: &mut S,
    relay: &mut AckRelay,
    metrics: &mut ClientMetrics,
    now: i64,
) -> (purged: u32)
    requires
        old(store).sound(),
        old(relay).wf(),
    ensures
        final(store).sound(),
        final(relay).wf(),
        store_at_cursor(
            *old(store),
            *final(store),
            slot_of(*subs, rep.consumer_id),
            rep.new_cursor,
        ),
        forall|slot: u32, s: u64|
            !old(store).is_closed() && subs.by_consumer@.contains_key(rep.consumer_id)
                && subs.by_consumer@[rep.consumer_id].dedup == Some(slot) ==> (
            #[trigger] final(store).table().model(slot).seen(s) <==> old(store).table().model(
                slot,
            ).seen(s) && s > rep.new_cursor),
        !subs.by_consumer@.contains_key(rep.consumer_id) || subs.by_consumer@[rep.consumer_id].dedup is None
            ==> *final(store) == *old(store),
        final(relay).set(rep.consumer_id) == over(
            old(relay).set(rep.consumer_id),
            rep.new_cursor,
        ),
        forall|c: u32|
            c != rep.consumer_id ==> #[trigger] final(relay).slot(c) == old(relay).slot(c),
        generation_in(*final(relay), rep.consumer_id) == generation_in(
            *old(relay),
            rep.consumer_id,
        ),
        final(relay).times(rep.consumer_id) == later(
            old(relay).times(rep.consumer_id),
            rep.new_cursor,
        ),
        purged as nat == up_to(old(relay).set(rep.consumer_id), rep.new_cursor).len() % two32(),
        *final(metrics) == (ClientMetrics {
            acks_confirmed: old(metrics).acks_confirmed.wrapping_add(purged as u64),
            ackstore_errors: if cursor_fails(
                *old(store),
                slot_of(*subs, rep.consumer_id),
            ) {
                old(metrics).ackstore_errors.wrapping_add(1)
            } else {
                old(metrics).ackstore_errors
            },
            ..*old(metrics)
        }),
{
    let purged: u32 = relay.purge_up_to(rep.consumer_id, rep.new_cursor);
    metrics.acks_confirmed = metrics.acks_confirmed.wrapping_add(purged as u64);
    confirm_cursor(subs, store, metrics, rep.consumer_id, rep.new_cursor, now);
    purged
}

/// Every deferred ack that is left is sent again, once, in order.
pub proof fn chunks_cover(s: Seq<u64>, k: int)
    requires
        0 <= k < s.len(),
    ensures
        ({
            let i = k / 1000;
            &&& 0 <= i < chunk_count(s.len())
            &&& 0 <= k - i * 1000 < chunk(s, i).len() <= 1000
            &&& chunk(s, i)[k - i * 1000] == s[k]
        }),
{
}

/// Nanoseconds between two warnings about acks above the high-water mark.
pub const SUSPICIOUS_WARN_INTERVAL_NS: u64 = 5_000_000_000;

/// Lets through one warning per interval.
#[derive(Debug)]
pub struct WarnGate {
    pub last_ns: u64,
}

impl WarnGate {
    pub fn new() -> (r: WarnGate)
        ensures
            r.last_ns == 0,
    {
        WarnGate { last_ns: 0 }
    }

    /// Whether to warn now.
    pub fn warn_rate_limited(&mut self, now_ns: u64) -> (r: bool)
        ensures
            r == (now_ns - old(self).last_ns >= SUSPICIOUS_WARN_INTERVAL_NS),
            r <==> now_ns - old(self).last_ns >= 5_000_000_000,
            final(self).last_ns == if r {
                now_ns
            } else {
                old(self).last_ns
            },
    {
        if now_ns.saturating_sub(self.last_ns) < SUSPICIOUS_WARN_INTERVAL_NS {
            return false;
        }
        self.last_ns = now_ns;
        true
    }
}

// ── laws ───────────────────────────────────────────────────────────────────
/// What stays deferred after the broker's view of a consumer. Where the broker
/// does not vouch for it, everything. Where the consumer is of another
/// generation, nothing. Otherwise what is above the cursor and not below the
/// lowest message that the broker has.
pub proof fn report_settles_the_deferred(relay: AckRelay, rep: AckStateRep, s: u64)
    ensures
        ({
            let m = relay.times(rep.consumer_id);
            let known = match relay.slot(rep.consumer_id) {
                Some(p) => p.generation,
                None => 0,
            };
            let left = deferred_after(relay, rep);
            &&& rep.status != 0 ==> left == m
            &&& rep.status == 0 && rep.generation != known ==> !left.contains_key(s)
            &&& rep.status == 0 && rep.generation == known ==> (left.contains_key(s)
                <==> m.contains_key(s) && s > rep.cursor && s >= rep.low_seq)
            &&& left.contains_key(s) ==> left[s] == m[s]
        }),
{
    let m = relay.times(rep.consumer_id);
    if rep.low_seq == 0 && s == 0 {
        assert(later(m, rep.cursor).contains_key(s) ==> s > rep.cursor);
    }
}

/// The broker's cursor takes from the delivered set of the consumer exactly
/// what is at or below it, and from no other slot anything.
pub proof fn cursor_reaches_one_slot<S: Delivered>(
    s0: S,
    s1: S,
    slot: u32,
    cursor: u64,
    other: u32,
    s: u64,
)
    requires
        s0.sound(),
        s1.sound(),
        !s0.is_closed(),
        store_at_cursor(s0, s1, Some(slot), cursor),
    ensures
        s1.table().model(slot).seen(s) <==> s0.table().model(slot).seen(s) && s > cursor,
        other != slot ==> s1.table().model(other) == s0.table().model(other),
{
    s0.sound_slots();
    s1.sound_slots();
    let t0 = s0.table();
    let t1 = s1.table();
    let m = t0.model(slot);
    if t0.has_id(slot) {
        let i = choose|i: int| t0.id_at(slot, i);
        t0.model_at(i);
        assert(t0.slots@[i].wf());
    }
    cursor_hides_nothing(m, cursor, s);
    if other != slot {
        if t0.has_id(other) {
            let i = choose|i: int| t0.id_at(other, i);
            assert(t1.slots@[i].same_as(&t0.slots@[i]));
            t0.model_at(i);
            t1.model_at(i);
        } else {
            if t1.has_id(other) {
                let i = choose|i: int| t1.id_at(other, i);
                assert(t1.slots@[i].same_as(&t0.slots@[i]));
                assert(t0.id_at(other, i));
            }
        }
    }
}

/// The frames that send deferred acks again carry each of them once, and
/// nothing else: the frames joined are the list.
pub proof fn frames_send_the_list(
    out: Seq<AckBatch>,
    start: u64,
    consumer_id: u32,
    generation: u32,
    list: Seq<u64>,
    k: int,
)
    requires
        sends(out, start, consumer_id, generation, list),
        0 <= k < list.len(),
    ensures
        ({
            let i = k / 1000;
            &&& 0 <= i < out.len()
            &&& out[i].consumer_id == consumer_id
            &&& out[i].generation == generation
            &&& out[i].number == counter_after(start, i as nat)
            &&& 0 <= k - i * 1000 < out[i].seqs@.len() <= 1000
            &&& out[i].seqs@[k - i * 1000] == list[k]
        }),
        out.len() <= (list.len() + 999) / 1000,
{
    chunks_cover(list, k);
}

} // verus!
