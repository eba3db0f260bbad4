//! Snapshots of live sets.

use crate::ackstore::durable::{covers, covers_live_op};
use crate::ackstore::format::{
    frame, record_of, snapshot_frame, snapshot_payload, snapshot_round_trip, LogRecord, OP_SNAPSHOT,
};
use crate::ackstore::live::{listing, listing_of, LiveMap};
use crate::ackstore::replay::{
    append_applies, complete, entry, scan, stamped, written_snapshot_is_what_is_live, MAX_PAYLOAD,
};
use crate::ackstore::store::{is_closed_err, Slot, StoreError};
use crate::ackstore::wal::Wal;
use crate::ackstore::wal_core::{appended, Counters};
use crate::ordered::{lists, sorted_keys};
use vstd::prelude::*;

verus! {

broadcast use vstd::laws_cmp::group_laws_cmp;

/// Most entries that a snapshot can hold and still be read back.
pub const MAX_SNAPSHOT_SEQS: usize = 8_388_603;

/// The snapshot of a live set.
pub open spec fn snapshot_of(slot_id: u32, now: u64, live: Map<u64, i64>) -> Seq<u8> {
    let seqs = listing(live.dom());
    snapshot_payload(slot_id, now, seqs[0], seqs.last(), seqs)
}

/// Snapshot frames of the slots that hold anything, in order.
pub open spec fn snapshot_frames(slots: Seq<Slot>, now: u64) -> Seq<u8>
    decreases slots.len(),
{
    if slots.len() == 0 {
        Seq::empty()
    } else {
        let s = slots.last();
        let before = snapshot_frames(slots.drop_last(), now);
        if s.state@.live.dom().len() == 0 {
            before
        } else {
            before + frame(snapshot_of(s.slot_id, now, s.state@.live))
        }
    }
}

/// Every live set is small enough for its snapshot to be read back.
pub open spec fn snapshots_fit(slots: Seq<Slot>) -> bool {
    forall|i: int|
        0 <= i < slots.len() ==> (#[trigger] slots[i]).state@.live.dom().len() <= MAX_SNAPSHOT_SEQS
}

/// The snapshot frame of a non-empty live set.
pub fn live_snapshot(slot_id: u32, now: u64, live: &LiveMap) -> (r: Vec<u8>)
    requires
        live@.dom().len() > 0,
    ensures
        r@ == frame(snapshot_of(slot_id, now, live@)),
{
    let seqs = sorted_keys(live);
    proof {
        listing_of(seqs@, live@.dom());
    }
    snapshot_frame(slot_id, now, seqs[0], seqs[seqs.len() - 1], &seqs)
}

/// What a snapshot of a live set says when read back.
pub proof fn snapshot_reads_back(slot_id: u32, now: u64, live: Map<u64, i64>, seqs: Seq<u64>)
    requires
        lists(seqs, live.dom()),
        0 < seqs.len() <= MAX_SNAPSHOT_SEQS,
    ensures
        0 < snapshot_of(slot_id, now, live).len() <= MAX_PAYLOAD,
        record_of(snapshot_of(slot_id, now, live)) == Some(
            LogRecord {
                op: OP_SNAPSHOT,
                slot_id,
                ts_ms: now,
                seq: 0,
                stream: Seq::empty(),
                consumer: Seq::empty(),
                seqs,
            },
        ),
        stamped(seqs, now as i64).dom() == live.dom(),
{
    listing_of(seqs, live.dom());
    snapshot_round_trip(slot_id, now, seqs[0], seqs.last(), seqs);
    assert(stamped(seqs, now as i64).dom() =~= live.dom()) by {
        assert forall|s: u64| seqs.contains(s) <==> live.dom().contains(s) by {
            assert(seqs.to_set().contains(s) <==> live.dom().contains(s));
        }
    }
}

impl Wal {
    /// Write one snapshot record per slot that holds anything. A closed store
    /// refuses.
    pub fn snapshot(&mut self, now: i64) -> (r: Result<(), StoreError>)
        requires
            old(self).slots.wf(),
        ensures
            final(self).slots == old(self).slots,
            if old(self).core.closed {
                is_closed_err(r) && final(self).core == old(self).core
            } else {
                &&& r is Ok
                &&& appended(
                    old(self).core,
                    snapshot_frames(old(self).slots.slots@, now as u64),
                    final(self).core,
                )
                &&& final(self).core.counters == (Counters {
                    recs_since_snap: 0,
                    last_snap_ms: now as u64,
                    ..old(self).core.counters
                })
            },
            old(self).durable(false) && snapshots_fit(old(self).slots.slots@)
                ==> final(self).durable(false),
            old(self).durable(true) && snapshots_fit(old(self).slots.slots@)
                ==> final(self).durable(true),
    {
        if self.core.closed {
            return Err(StoreError::Closed);
        }
        let ghost w0 = *self;
        let ghost slots = self.slots.slots@;
        let mut i: usize = 0;
        assert(w0.core.log@ + Seq::<u8>::empty() =~= w0.core.log@);
        assert(w0.core.pending@ + Seq::<u8>::empty() =~= w0.core.pending@);
        while i < self.slots.slots.len()
            invariant
                i <= slots.len(),
                w0 == *old(self),
                slots == w0.slots.slots@,
                w0.slots.wf(),
                self.slots == w0.slots,
                !w0.core.closed,
                appended(w0.core, snapshot_frames(slots.take(i as int), now as u64), self.core),
                self.core.counters == w0.core.counters,
                w0.durable(false) && snapshots_fit(slots) ==> self.durable(false),
                w0.durable(true) && snapshots_fit(slots) ==> self.durable(true),
            decreases slots.len() - i,
        {
            proof {
                assert(slots.take(i + 1).drop_last() =~= slots.take(i as int));
            }
            let ghost w1 = *self;
            let ghost live = slots[i as int].state@.live;
            if self.slots.slots[i].state.set.len() > 0 {
                let slot_id: u32 = self.slots.slots[i].slot_id;
                let f = live_snapshot(slot_id, now as u64, &self.slots.slots[i].state.set);
                let _done = self.core.append_frame(f.as_slice());
                proof {
                    let a = snapshot_frames(slots.take(i as int), now as u64);
                    let b = snapshot_frames(slots.take(i + 1), now as u64);
                    assert(b == a + f@);
                    assert(self.core.log@ =~= w0.core.log@ + b);
                    assert(self.core.pending@ =~= w0.core.pending@ + b);
                    if snapshots_fit(slots) && complete(w1.core.log@) {
                        let seqs = listing(live.dom());
                        listing_exists(live);
                        snapshot_reads_back(slot_id, now as u64, live, seqs);
                        append_applies(
                            w1.core.log@,
                            snapshot_of(slot_id, now as u64, live),
                            0,
                        );
                        let rec = record_of(snapshot_of(slot_id, now as u64, live))->0;
                        let st = scan(w1.core.log@, 0).0;
                        if covers(st, w1.slots, false) {
                            covers_live_op(st, w1.slots, i as int, rec, self.slots, false);
                        }
                        if covers(st, w1.slots, true) {
                            covers_live_op(st, w1.slots, i as int, rec, self.slots, true);
                        }
                    }
                }
            }
            i = i + 1;
        }
        assert(slots.take(i as int) =~= slots);
        self.core.counters.recs_since_snap = 0;
        self.core.counters.last_snap_ms = now as u64;
        Ok(())
    }
}

/// A finite set of numbers has an ascending listing.
pub proof fn listing_exists(live: Map<u64, i64>)
    requires
        live.dom().finite(),
    ensures
        lists(listing(live.dom()), live.dom()),
{
    finite_has_listing(live.dom());
}

proof fn finite_has_listing(d: Set<u64>)
    requires
        d.finite(),
    ensures
        exists|s: Seq<u64>| lists(s, d),
    decreases d.len(),
{
    if d.len() == 0 {
        assert(d =~= Set::empty());
        assert(Seq::<u64>::empty().to_set() =~= d);
        assert(lists(Seq::<u64>::empty(), d));
    } else {
        let top = largest_of(d);
        let rest = d.remove(top);
        finite_has_listing(rest);
        let s = choose|s: Seq<u64>| lists(s, rest);
        let t = s.push(top);
        crate::ackstore::live::push_contains(s, top);
        assert forall|j: int| 0 <= j < s.len() implies s[j] < top by {
            assert(s.to_set().contains(s[j]));
            assert(rest.contains(s[j]));
        }
        assert(t.to_set() =~= d) by {
            assert forall|v: u64| t.to_set().contains(v) == d.contains(v) by {
                assert(t.contains(v) <==> (s.contains(v) || v == top));
                assert(s.to_set().contains(v) == rest.contains(v));
            }
        }
        assert(lists(t, d));
    }
}

proof fn largest_of(d: Set<u64>) -> (r: u64)
    requires
        d.finite(),
        d.len() > 0,
    ensures
        d.contains(r),
        forall|s: u64| d.contains(s) ==> s <= r,
    decreases d.len(),
{
    let x = d.choose();
    if d.len() == 1 {
        assert forall|s: u64| d.contains(s) implies s <= x by {
            if s != x {
                assert(d.remove(x).len() == 0);
                assert(d.remove(x).contains(s));
            }
        }
        x
    } else {
        let y = largest_of(d.remove(x));
        if x > y {
            x
        } else {
            y
        }
    }
}

// ── laws ───────────────────────────────────────────────────────────────────
proof fn snapshots_apply(
    log: Seq<u8>,
    slots: Seq<Slot>,
    now: i64,
    cutoff: i64,
    id: u32,
    s: u64,
)
    requires
        complete(log),
        0 <= now,
        cutoff <= now,
        snapshots_fit(slots),
        forall|i: int| 0 <= i < slots.len() ==> (#[trigger] slots[i]).state@.live.dom().finite(),
        forall|i: int, j: int|
            #![trigger slots[i], slots[j]]
            0 <= i < j < slots.len() ==> slots[i].slot_id != slots[j].slot_id,
    ensures
        complete(log + snapshot_frames(slots, now as u64)),
        ({
            let e = entry(scan(log + snapshot_frames(slots, now as u64), cutoff).0, id, s);
            &&& (forall|i: int| 0 <= i < slots.len() ==> (#[trigger] slots[i]).slot_id != id) ==> e
                == entry(scan(log, cutoff).0, id, s)
            &&& forall|i: int|
                0 <= i < slots.len() && (#[trigger] slots[i]).slot_id == id ==> e
                    == if slots[i].state@.live.contains_key(s) {
                    Some(now)
                } else if slots[i].state@.live.dom().len() > 0 {
                    None
                } else {
                    entry(scan(log, cutoff).0, id, s)
                }
        }),
    decreases slots.len(),
{
    if slots.len() == 0 {
        assert(log + snapshot_frames(slots, now as u64) =~= log);
    } else {
        let t = slots.drop_last();
        let z = slots.last();
        let live = z.state@.live;
        let mid = log + snapshot_frames(t, now as u64);
        let all = log + snapshot_frames(slots, now as u64);
        assert forall|i: int| 0 <= i < t.len() implies (#[trigger] t[i]).state@.live.dom().len()
            <= MAX_SNAPSHOT_SEQS && t[i].state@.live.dom().finite() && t[i].slot_id
            != z.slot_id by {
            assert(slots[i] == t[i]);
            assert(slots[slots.len() - 1] == z);
        }
        assert forall|i: int, j: int|
            #![trigger t[i], t[j]]
            0 <= i < j < t.len() implies t[i].slot_id != t[j].slot_id by {
            assert(slots[i] == t[i] && slots[j] == t[j]);
        }
        snapshots_apply(log, t, now, cutoff, id, s);
        assert(slots[slots.len() - 1] == z);
        if live.dom().len() == 0 {
            assert(all =~= mid);
            assert(live.dom() =~= Set::empty());
        } else {
            let seqs = listing(live.dom());
            listing_exists(live);
            snapshot_reads_back(z.slot_id, now as u64, live, seqs);
            written_snapshot_is_what_is_live(
                mid,
                z.slot_id,
                now as u64,
                seqs[0],
                seqs.last(),
                seqs,
                cutoff,
                id,
                s,
            );
            assert(all =~= mid + frame(snapshot_of(z.slot_id, now as u64, live)));
            assert(seqs.contains(s) == seqs.to_set().contains(s));
        }
        let e = entry(scan(all, cutoff).0, id, s);
        assert forall|i: int| 0 <= i < slots.len() && (#[trigger] slots[i]).slot_id == id implies e
            == if slots[i].state@.live.contains_key(s) {
            Some(now)
        } else if slots[i].state@.live.dom().len() > 0 {
            None
        } else {
            entry(scan(log, cutoff).0, id, s)
        } by {
            if i < t.len() {
                assert(t[i] == slots[i]);
            } else {
                assert forall|j: int| 0 <= j < t.len() implies (#[trigger] t[j]).slot_id != id by {}
            }
        }
        if forall|i: int| 0 <= i < slots.len() ==> (#[trigger] slots[i]).slot_id != id {
            assert forall|j: int| 0 <= j < t.len() implies (#[trigger] t[j]).slot_id != id by {
                assert(slots[j] == t[j]);
            }
        }
    }
}

/// Snapshots lose nothing: whatever is live in a slot when they are written
/// comes back from the log as recorded then, under every age limit that a
/// recording of that time is not too old for.
pub proof fn snapshot_keeps_what_is_live(
    log: Seq<u8>,
    slots: Seq<Slot>,
    now: i64,
    cutoff: i64,
    i: int,
    s: u64,
)
    requires
        complete(log),
        0 <= now,
        cutoff <= now,
        snapshots_fit(slots),
        forall|k: int| 0 <= k < slots.len() ==> (#[trigger] slots[k]).state@.live.dom().finite(),
        forall|k: int, j: int|
            #![trigger slots[k], slots[j]]
            0 <= k < j < slots.len() ==> slots[k].slot_id != slots[j].slot_id,
        0 <= i < slots.len(),
        slots[i].state@.live.contains_key(s),
    ensures
        entry(
            scan(log + snapshot_frames(slots, now as u64), cutoff).0,
            slots[i].slot_id,
            s,
        ) == Some(now),
{
    snapshots_apply(log, slots, now, cutoff, slots[i].slot_id, s);
}

} // verus!
