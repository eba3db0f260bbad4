//! Dropping entries past their age limit.

use crate::ackstore::durable::covers_expired;
use crate::ackstore::live::{expired_in, listing, older_than};
use crate::ackstore::slot::{narrowed_wf, seen_is_exact, SlotModel};
use crate::ackstore::store::Slot;
use crate::ackstore::table::{changed_at, changed_wf, live_count};
use crate::ackstore::wal::Wal;
use crate::ackstore::wal_core::{appended, expire_frames, Counters};
use vstd::prelude::*;

verus! {

broadcast use vstd::laws_cmp::group_laws_cmp;

impl SlotModel {
    /// After everything recorded before `cutoff` was dropped.
    pub open spec fn swept(self, cutoff: i64) -> SlotModel {
        let gone = expired_in(self.live, cutoff);
        if gone.len() == 0 {
            self
        } else {
            self.narrowed(self.live.remove_keys(gone))
        }
    }
}

/// Expire frames of a list of slots, each slot's in ascending order.
pub open spec fn sweep_frames(slots: Seq<Slot>, cutoff: i64, now: i64) -> Seq<u8>
    decreases slots.len(),
{
    if slots.len() == 0 {
        Seq::empty()
    } else {
        let s = slots.last();
        sweep_frames(slots.drop_last(), cutoff, now) + expire_frames(
            s.slot_id,
            now,
            listing(expired_in(s.state@.live, cutoff)),
        )
    }
}

/// How many entries of a list of slots are past the age limit.
pub open spec fn sweep_count(slots: Seq<Slot>, cutoff: i64) -> nat
    decreases slots.len(),
{
    if slots.len() == 0 {
        0
    } else {
        sweep_count(slots.drop_last(), cutoff) + expired_in(slots.last().state@.live, cutoff).len()
    }
}

/// Adding up modulo 2^64, in steps or at once.
proof fn wrapping_sum(c: u64, x: nat, n: usize)
    ensures
        c.wrapping_add((x % 0x1_0000_0000_0000_0000) as u64).wrapping_add(n as u64)
            == c.wrapping_add(((x + n) % 0x1_0000_0000_0000_0000) as u64),
{
}

impl Wal {
    /// Drop and log the expired entries of one slot.
    fn expire_slot(&mut self, i: usize, cutoff: i64, now: i64) -> (n: usize)
        requires
            old(self).wf(),
            !old(self).core.closed,
            i < old(self).slots.slots@.len(),
        ensures
            final(self).wf(),
            changed_at(old(self).slots, i as int, final(self).slots),
            final(self).slots.slots@[i as int].state@ == old(
                self,
            ).slots.slots@[i as int].state@.swept(cutoff),
            n == expired_in(old(self).slots.slots@[i as int].state@.live, cutoff).len(),
            appended(
                old(self).core,
                expire_frames(
                    old(self).slots.slots@[i as int].slot_id,
                    now,
                    listing(expired_in(old(self).slots.slots@[i as int].state@.live, cutoff)),
                ),
                final(self).core,
            ),
            final(self).core.counters == old(self).core.counters,
            old(self).durable(false) ==> final(self).durable(false),
            old(self).durable(true) ==> final(self).durable(true),
    {
        let ghost w0 = *self;
        let ghost m0 = self.slots.slots@[i as int].state@;
        let expired = older_than(&self.slots.slots[i].state.set, cutoff);
        let slot_id: u32 = self.slots.slots[i].slot_id;
        if expired.len() > 0 {
            self.slots.slots[i].state.drop_all(&expired);
        }
        self.core.append_expired(slot_id, now, &expired);
        proof {
            let m1 = self.slots.slots@[i as int].state@;
            let left = m0.live.remove_keys(expired@.to_set());
            if expired@.len() == 0 {
                assert(left =~= m0.live);
            } else {
                narrowed_wf(m0, left);
                vstd::set_lib::lemma_len_subset(left.dom(), m0.live.dom());
            }
            assert(m1.live == left);
            changed_wf(w0.slots, i as int, self.slots);
            if w0.durable(false) {
                covers_expired(
                    w0.core.log@,
                    w0.slots,
                    i as int,
                    now,
                    expired@,
                    self.slots,
                    false,
                );
            }
            if w0.durable(true) {
                covers_expired(
                    w0.core.log@,
                    w0.slots,
                    i as int,
                    now,
                    expired@,
                    self.slots,
                    true,
                );
            }
        }
        expired.len()
    }

    /// Drop every entry past its age limit, logging each. Does nothing without
    /// an age limit, or once the log is closed.
    pub fn sweep(&mut self, now: i64)
        requires
            old(self).wf(),
            old(self).core.cfg.clock_ok(now),
        ensures
            final(self).wf(),
            old(self).core.cfg.ttl() is None || old(self).core.closed ==> *final(self) == *old(
                self,
            ),
            old(self).core.cfg.ttl() is Some && !old(self).core.closed ==> {
                let cutoff = old(self).core.cfg.cutoff(now);
                let slots = old(self).slots.slots@;
                &&& final(self).slots.next_id == old(self).slots.next_id
                &&& final(self).slots.slots@.len() == slots.len()
                &&& forall|i: int|
                    0 <= i < slots.len() ==> (#[trigger] final(self).slots.slots@[i]).same_as(
                        &slots[i],
                    ) && final(self).slots.slots@[i].state@ == slots[i].state@.swept(cutoff)
                &&& appended(
                    old(self).core,
                    sweep_frames(slots, cutoff, now),
                    final(self).core,
                )
                &&& final(self).core.counters == (Counters {
                    expired: old(self).core.counters.expired.wrapping_add(
                        (sweep_count(slots, cutoff) % 0x1_0000_0000_0000_0000) as u64,
                    ),
                    ..old(self).core.counters
                })
            },
            old(self).durable(false) ==> final(self).durable(false),
            old(self).durable(true) ==> final(self).durable(true),
    {
        if self.core.closed {
            return ;
        }
        match self.core.cfg.ttl_ms {
            Some(t) => {
                if t == 0 {
                    return ;
                }
            },
            None => {
                return ;
            },
        }
        let ghost w0 = *self;
        let ghost slots = self.slots.slots@;
        let cutoff: i64 = self.core.cfg.ttl_cutoff(now);
        let mut i: usize = 0;
        assert(w0.core.log@ + Seq::<u8>::empty() =~= w0.core.log@);
        assert(w0.core.pending@ + Seq::<u8>::empty() =~= w0.core.pending@);
        while i < self.slots.slots.len()
            invariant
                i <= slots.len(),
                slots == w0.slots.slots@,
                self.wf(),
                self.slots.next_id == w0.slots.next_id,
                self.slots.slots@.len() == slots.len(),
                forall|j: int|
                    0 <= j < i ==> (#[trigger] self.slots.slots@[j]).same_as(&slots[j])
                        && self.slots.slots@[j].state@ == slots[j].state@.swept(cutoff),
                forall|j: int| i <= j < slots.len() ==> #[trigger] self.slots.slots@[j] == slots[j],
                !w0.core.closed,
                appended(w0.core, sweep_frames(slots.take(i as int), cutoff, now), self.core),
                self.core.counters == (Counters {
                    expired: w0.core.counters.expired.wrapping_add(
                        (sweep_count(slots.take(i as int), cutoff) % 0x1_0000_0000_0000_0000) as u64,
                    ),
                    ..w0.core.counters
                }),
                w0.durable(false) ==> self.durable(false),
                w0.durable(true) ==> self.durable(true),
            decreases slots.len() - i,
        {
            let ghost w1 = *self;
            let n: usize = self.expire_slot(i, cutoff, now);
            self.core.counters.expired = self.core.counters.expired.wrapping_add(n as u64);
            proof {
                let a = slots.take(i as int);
                let b = slots.take(i + 1);
                wrapping_sum(w0.core.counters.expired, sweep_count(a, cutoff), n);
                assert(b.drop_last() =~= a);
                assert(w1.slots.slots@[i as int] == slots[i as int]);
                assert forall|j: int| 0 <= j < i + 1 implies (#[trigger]
                self.slots.slots@[j]).same_as(&slots[j]) && self.slots.slots@[j].state@
                    == slots[j].state@.swept(cutoff) by {
                    if j < i {
                        assert(self.slots.slots@[j] == w1.slots.slots@[j]);
                    }
                }
                assert(self.core.log@ =~= w0.core.log@ + sweep_frames(b, cutoff, now));
                assert(self.core.pending@ =~= w0.core.pending@ + sweep_frames(b, cutoff, now));
            }
            i = i + 1;
        }
        assert(slots.take(i as int) =~= slots);
    }
}

// ── laws ───────────────────────────────────────────────────────────────────
/// A sweep forgets exactly what was recorded before the cutoff. What is not
/// older stays, with its time.
pub proof fn sweep_forgets_only_the_old(m: SlotModel, cutoff: i64, s: u64)
    requires
        m.wf(),
        !m.tombed,
    ensures
        m.swept(cutoff).wf(),
        m.swept(cutoff).seen(s) <==> m.seen(s) && m.live[s] >= cutoff,
        m.swept(cutoff).seen(s) ==> m.swept(cutoff).live[s] == m.live[s],
{
    let gone = expired_in(m.live, cutoff);
    let left = m.live.remove_keys(gone);
    if gone.len() == 0 {
        assert(!gone.contains(s)) by {
            if gone.contains(s) {
                vstd::set_lib::lemma_set_subset_finite(m.live.dom(), gone);
                vstd::set_lib::lemma_set_empty_equivalency_len(gone);
            }
        }
    } else {
        narrowed_wf(m, left);
    }
    seen_is_exact(m, s);
    seen_is_exact(m.swept(cutoff), s);
}

/// A sweep counts what it drops: what was live before is live after it or
/// counted.
pub proof fn sweep_counts_what_it_drops(before: Seq<Slot>, after: Seq<Slot>, cutoff: i64)
    requires
        before.len() == after.len(),
        forall|i: int|
            0 <= i < before.len() ==> {
                &&& (#[trigger] before[i]).state@.wf()
                &&& after[i].state@ == before[i].state@.swept(cutoff)
            },
    ensures
        sweep_count(before, cutoff) + live_count(after) == live_count(before),
    decreases before.len(),
{
    if before.len() > 0 {
        let b = before.drop_last();
        let a = after.drop_last();
        assert forall|i: int| 0 <= i < b.len() implies {
            &&& (#[trigger] b[i]).state@.wf()
            &&& a[i].state@ == b[i].state@.swept(cutoff)
        } by {
            assert(b[i] == before[i] && a[i] == after[i]);
        }
        sweep_counts_what_it_drops(b, a, cutoff);
        let z = before[before.len() - 1];
        let m = z.state@;
        let gone = expired_in(m.live, cutoff);
        let left = m.live.remove_keys(gone);
        assert(after[after.len() - 1].state@ == m.swept(cutoff));
        assert(gone.subset_of(m.live.dom()));
        vstd::set_lib::lemma_set_subset_finite(m.live.dom(), gone);
        assert(left.dom() =~= m.live.dom().difference(gone));
        vstd::set_lib::lemma_set_disjoint_lens(left.dom(), gone);
        assert(left.dom().union(gone) =~= m.live.dom());
    }
}

} // verus!
