//! Deferred acks of one consumer: delivered sequence numbers that the broker
//! has not confirmed yet, behind a cheap range gate.

use crate::ackstore::live::{listing, push_contains};
use crate::ordered::{ascending, listing_is_unique, lists, sorted_keys};
use std::collections::BTreeMap;
use vstd::prelude::*;

verus! {

broadcast use vstd::laws_cmp::group_laws_cmp;

/// Number of 32-bit values: counts are kept modulo this.
pub open spec fn two32() -> nat {
    0x1_0000_0000
}

/// Deferred sequence numbers of one consumer. A reconnect bumps `generation`,
/// which drops the whole set rather than reconciling it entry by entry.
pub struct ConsumerPending {
    pub generation: u32,
    pub count: u32,
    pub min_seq: u64,
    pub max_seq: u64,
    /// Sequence number → time deferred (ms).
    pub pending: BTreeMap<u64, u64>,
    /// Time of the oldest entry, 0 where there is none.
    pub oldest_ts_ms: u64,
}

/// Members at most `cursor`.
pub open spec fn up_to(s: Set<u64>, cursor: u64) -> Set<u64> {
    s.filter(|x: u64| x <= cursor)
}

/// Members over `cursor`.
pub open spec fn over(s: Set<u64>, cursor: u64) -> Set<u64> {
    s.filter(|x: u64| x > cursor)
}

/// The entries over `cursor`.
pub open spec fn later(m: Map<u64, u64>, cursor: u64) -> Map<u64, u64> {
    m.restrict(over(m.dom(), cursor))
}

/// The earliest of the times, zero for none.
pub open spec fn is_earliest(m: Map<u64, u64>, r: u64) -> bool {
    &&& forall|s: u64| #[trigger] m.contains_key(s) ==> r <= m[s]
    &&& (exists|s: u64| #[trigger] m.contains_key(s) && m[s] == r) || (r == 0 && m.dom()
        == Set::<u64>::empty())
}

/// Up to `max` of the smallest members, ascending.
pub open spec fn smallest(s: Set<u64>, max: nat) -> Seq<u64> {
    let all = listing(s);
    if all.len() < max {
        all
    } else {
        all.take(max as int)
    }
}

impl ConsumerPending {
    /// The deferred set.
    pub open spec fn set(&self) -> Set<u64> {
        self.pending@.dom()
    }

    /// The deferred numbers and when each was deferred.
    pub open spec fn times(&self) -> Map<u64, u64> {
        self.pending@
    }

    /// Count, bounds and oldest time are those of the entries (the count
    /// modulo 2^32).
    pub open spec fn wf(&self) -> bool {
        &&& self.set().finite()
        &&& self.count as nat == self.set().len() % two32()
        &&& is_earliest(self.times(), self.oldest_ts_ms)
        &&& if self.set().len() == 0 {
            self.min_seq == u64::MAX && self.max_seq == 0
        } else {
            &&& self.set().contains(self.min_seq)
            &&& self.set().contains(self.max_seq)
            &&& forall|x: u64| #[trigger]
                self.set().contains(x) ==> self.min_seq <= x <= self.max_seq
        }
    }

    pub fn new(generation: u32) -> (r: ConsumerPending)
        ensures
            r.wf(),
            r.generation == generation,
            r.times() == Map::<u64, u64>::empty(),
    {
        let r = ConsumerPending {
            generation,
            count: 0,
            min_seq: u64::MAX,
            max_seq: 0,
            pending: BTreeMap::new(),
            oldest_ts_ms: 0,
        };
        assert(r.set() =~= Set::empty());
        r
    }

    /// Note `seq` as deferred, unless it is already. Returns whether it is
    /// new.
    pub fn record(&mut self, seq: u64, now_ms: u64) -> (r: bool)
        requires
            old(self).wf(),
        ensures
            final(self).wf(),
            r == !old(self).set().contains(seq),
            final(self).generation == old(self).generation,
            final(self).times() == if r {
                old(self).times().insert(seq, now_ms)
            } else {
                old(self).times()
            },
    {
        if self.pending.contains_key(&seq) {
            return false;
        }
        let ghost p0 = *self;
        if self.pending.is_empty() || now_ms < self.oldest_ts_ms {
            self.oldest_ts_ms = now_ms;
        }
        self.pending.insert(seq, now_ms);
        self.count = self.count.wrapping_add(1);
        if seq < self.min_seq {
            self.min_seq = seq;
        }
        if seq > self.max_seq {
            self.max_seq = seq;
        }
        proof {
            assert(self.set() =~= p0.set().insert(seq));
            assert(self.set().contains(seq));
            if p0.set().len() == 0 {
                assert(p0.set() =~= Set::empty());
            }
            assert forall|x: u64| #[trigger] self.set().contains(x) implies self.min_seq <= x
                <= self.max_seq by {
                assert(x == seq || p0.set().contains(x));
            }
            let m0 = p0.times();
            let m1 = self.times();
            assert(m1.contains_key(seq) && m1[seq] == now_ms);
            if self.oldest_ts_ms != now_ms {
                let s = choose|s: u64| #[trigger] m0.contains_key(s) && m0[s] == p0.oldest_ts_ms;
                assert(m1.contains_key(s) && m1[s] == self.oldest_ts_ms);
            }
            assert forall|s: u64| #[trigger] m1.contains_key(s) implies self.oldest_ts_ms
                <= m1[s] by {
                assert(s == seq || m0.contains_key(s));
            }
        }
        true
    }

    /// Whether `seq` is deferred: count, then range, then the set itself.
    pub fn is_pending(&self, seq: u64) -> (r: bool)
        ensures
            r == (self.count != 0 && self.min_seq <= seq <= self.max_seq && self.set().contains(
                seq,
            )),
            self.wf() && self.set().len() < two32() ==> r == self.set().contains(seq),
    {
        if self.count == 0 {
            proof {
                if self.wf() && self.set().len() < two32() {
                    assert(self.set() =~= Set::empty());
                }
            }
            return false;
        }
        if seq < self.min_seq || seq > self.max_seq {
            return false;
        }
        self.pending.contains_key(&seq)
    }

    /// Drop every entry at or below the broker's cursor. Returns how many
    /// (modulo 2^32).
    pub fn purge_up_to(&mut self, new_cursor: u64) -> (removed: u32)
        requires
            old(self).wf(),
        ensures
            final(self).wf(),
            final(self).generation == old(self).generation,
            final(self).times() == later(old(self).times(), new_cursor),
            final(self).set() == over(old(self).set(), new_cursor),
            removed as nat == up_to(old(self).set(), new_cursor).len() % two32(),
    {
        let all = sorted_keys(&self.pending);
        let ghost m0 = self.times();
        let ghost s0 = self.set();
        let mut kept: BTreeMap<u64, u64> = BTreeMap::new();
        let mut oldest: u64 = 0;
        let mut gone: u64 = 0;
        let mut i: usize = 0;
        assert(m0.restrict(over(Seq::<u64>::empty().to_set(), new_cursor)) =~= Map::empty());
        assert(up_to(Seq::<u64>::empty().to_set(), new_cursor) =~= Set::empty());
        assert(all@.take(0) =~= Seq::empty());
        assert(kept@.dom() =~= Set::empty());
        while i < all.len()
            invariant
                i <= all@.len(),
                lists(all@, s0),
                s0 == m0.dom(),
                self.times() == m0,
                gone <= i,
                kept@ == m0.restrict(over(all@.take(i as int).to_set(), new_cursor)),
                gone as nat == up_to(all@.take(i as int).to_set(), new_cursor).len(),
                is_earliest(kept@, oldest),
            decreases all@.len() - i,
        {
            let x: u64 = all[i];
            proof {
                let a = all@.take(i as int);
                let b = all@.take(i + 1);
                assert(b =~= a.push(x));
                push_contains(a, x);
                assert(all@.to_set().contains(x));
                assert(!a.contains(x)) by {
                    if a.contains(x) {
                        let j = choose|j: int| 0 <= j < a.len() && a[j] == x;
                        assert(all@[j] < all@[i as int]);
                    }
                }
                assert forall|v: u64| b.to_set().contains(v) <==> (a.to_set().contains(v) || v
                    == x) by {
                    assert(b.contains(v) <==> (a.contains(v) || v == x));
                }
                if x > new_cursor {
                    assert(m0.restrict(over(b.to_set(), new_cursor)) =~= m0.restrict(
                        over(a.to_set(), new_cursor),
                    ).insert(x, m0[x]));
                    assert(up_to(b.to_set(), new_cursor) =~= up_to(a.to_set(), new_cursor));
                } else {
                    assert(over(b.to_set(), new_cursor) =~= over(a.to_set(), new_cursor));
                    assert(up_to(b.to_set(), new_cursor) =~= up_to(a.to_set(), new_cursor).insert(
                        x,
                    ));
                }
            }
            if x > new_cursor {
                let ts: u64 = *self.pending.get(&x).unwrap();
                let ghost k0 = kept@;
                let ghost o0 = oldest;
                if kept.is_empty() || ts < oldest {
                    oldest = ts;
                }
                kept.insert(x, ts);
                proof {
                    assert(kept@.contains_key(x) && kept@[x] == ts);
                    if oldest != ts {
                        let s = choose|s: u64| #[trigger] k0.contains_key(s) && k0[s] == o0;
                        assert(s != x);
                        assert(kept@.contains_key(s) && kept@[s] == oldest);
                    }
                    assert forall|s: u64| #[trigger] kept@.contains_key(s) implies oldest
                        <= kept@[s] by {
                        assert(s == x || k0.contains_key(s));
                    }
                }
            } else {
                gone = gone + 1;
            }
            i = i + 1;
        }
        assert(all@.take(i as int) =~= all@);
        assert(later(m0, new_cursor).dom() =~= over(s0, new_cursor));
        let left = sorted_keys(&kept);
        self.count = (kept.len() as u64 % 0x1_0000_0000) as u32;
        self.pending = kept;
        self.oldest_ts_ms = oldest;
        if left.len() > 0 {
            self.min_seq = left[0];
            self.max_seq = left[left.len() - 1];
            proof {
                assert(left@.to_set().contains(left@[0]));
                assert(left@.to_set().contains(left@[left@.len() - 1]));
                assert forall|x: u64| #[trigger] self.set().contains(x) implies self.min_seq <= x
                    <= self.max_seq by {
                    assert(left@.to_set().contains(x));
                    let j = choose|j: int| 0 <= j < left@.len() && left@[j] == x;
                }
            }
        } else {
            self.min_seq = u64::MAX;
            self.max_seq = 0;
        }
        (gone % 0x1_0000_0000) as u32
    }

    /// Up to `max` of the smallest deferred numbers, ascending. Nothing is
    /// removed: only the broker's confirmation does that.
    pub fn drain_ascending(&self, max: usize) -> (r: Vec<u64>)
        ensures
            r@ == smallest(self.set(), max as nat),
            ascending(r@),
            r@.len() == if self.set().len() < max {
                self.set().len()
            } else {
                max as nat
            },
            forall|x: u64| #[trigger] r@.contains(x) ==> self.set().contains(x),
            forall|x: u64, y: u64|
                r@.contains(x) && self.set().contains(y) && !r@.contains(y) ==> x < y,
    {
        let all = sorted_keys(&self.pending);
        let n: usize = if all.len() < max {
            all.len()
        } else {
            max
        };
        let mut out: Vec<u64> = Vec::new();
        let mut i: usize = 0;
        while i < n
            invariant
                i <= n <= all@.len(),
                out@ == all@.take(i as int),
            decreases n - i,
        {
            out.push(all[i]);
            i = i + 1;
            assert(out@ =~= all@.take(i as int));
        }
        proof {
            assert(lists(listing(self.set()), self.set()));
            listing_is_unique(all@, listing(self.set()));
            assert(out@ =~= smallest(self.set(), max as nat));
            assert forall|x: u64| #[trigger] out@.contains(x) implies self.set().contains(x) by {
                let j = choose|j: int| 0 <= j < out@.len() && out@[j] == x;
                assert(all@.to_set().contains(all@[j]));
            }
            assert forall|x: u64, y: u64|
                out@.contains(x) && self.set().contains(y) && !out@.contains(y) implies x < y by {
                let j = choose|j: int| 0 <= j < out@.len() && out@[j] == x;
                assert(all@.to_set().contains(y));
                let k = choose|k: int| 0 <= k < all@.len() && all@[k] == y;
                if k < n {
                    assert(out@[k] == y);
                }
                assert(all@[j] < all@[k]);
            }
        }
        out
    }

    /// The oldest entry is at or past the cutoff.
    pub open spec fn due(&self, cutoff_ms: u64) -> bool {
        exists|s: u64| #[trigger] self.times().contains_key(s) && self.times()[s] <= cutoff_ms
    }

    /// Drop the whole set once its oldest entry is at or past the cutoff.
    /// Returns how many entries left (modulo 2^32).
    pub fn expire_older_than(&mut self, cutoff_ms: u64, now_ms: u64) -> (removed: u32)
        requires
            old(self).wf(),
        ensures
            final(self).wf(),
            final(self).generation == old(self).generation,
            if old(self).due(cutoff_ms) {
                &&& removed as nat == old(self).set().len() % two32()
                &&& final(self).times() == Map::<u64, u64>::empty()
            } else {
                removed == 0 && *final(self) == *old(self)
            },
    {
        if self.pending.is_empty() || self.oldest_ts_ms > cutoff_ms {
            proof {
                if self.due(cutoff_ms) {
                    let s = choose|s: u64| #[trigger] self.times().contains_key(s)
                        && self.times()[s] <= cutoff_ms;
                    assert(self.set().contains(s));
                }
            }
            return 0;
        }
        assert(self.due(cutoff_ms)) by {
            let s = choose|s: u64| #[trigger] self.times().contains_key(s) && self.times()[s]
                == self.oldest_ts_ms;
            assert(self.times().contains_key(s));
        }
        let removed: u32 = (self.pending.len() as u64 % 0x1_0000_0000) as u32;
        self.pending.clear();
        self.count = 0;
        self.min_seq = u64::MAX;
        self.max_seq = 0;
        self.oldest_ts_ms = 0;
        assert(self.set() =~= Set::empty());
        assert(self.times() =~= Map::empty());
        removed
    }
}

// ── laws ───────────────────────────────────────────────────────────────────
/// A cursor parts a deferred set: what is at or below it goes, what is above
/// it stays, with its time.
pub proof fn cursor_parts_the_deferred(m: Map<u64, u64>, cursor: u64, s: u64)
    requires
        m.dom().finite(),
    ensures
        later(m, cursor).contains_key(s) <==> m.contains_key(s) && s > cursor,
        later(m, cursor).contains_key(s) ==> later(m, cursor)[s] == m[s],
        over(m.dom(), cursor).contains(s) <==> m.contains_key(s) && s > cursor,
        up_to(m.dom(), cursor).contains(s) <==> m.contains_key(s) && s <= cursor,
        up_to(m.dom(), cursor).len() + over(m.dom(), cursor).len() == m.dom().len(),
{
    let a = up_to(m.dom(), cursor);
    let b = over(m.dom(), cursor);
    assert(a.disjoint(b));
    vstd::set_lib::lemma_set_disjoint_lens(a, b);
    assert(a.union(b) =~= m.dom());
}

} // verus!
