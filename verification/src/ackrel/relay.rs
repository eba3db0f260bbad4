//! Deferred acks of every consumer of a connection.

use crate::ackrel::pending::{later, over, smallest, two32, up_to, ConsumerPending};
use crate::ackstore::live::listing;
use crate::ordered::{ascending, listing_is_unique, lists};
use vstd::prelude::*;

verus! {

/// One slot per consumer id, filled on first use.
pub struct AckRelay {
    pub per_consumer: Vec<Option<ConsumerPending>>,
}

impl AckRelay {
    /// The slot of a consumer.
    pub open spec fn slot(&self, cid: u32) -> Option<ConsumerPending> {
        if (cid as int) < self.per_consumer@.len() {
            self.per_consumer@[cid as int]
        } else {
            None
        }
    }

    /// The deferred acks of a consumer, and when each was deferred.
    pub open spec fn times(&self, cid: u32) -> Map<u64, u64> {
        match self.slot(cid) {
            Some(p) => p.times(),
            None => Map::empty(),
        }
    }

    /// The deferred set of a consumer; empty where it has no slot.
    pub open spec fn set(&self, cid: u32) -> Set<u64> {
        match self.slot(cid) {
            Some(p) => p.set(),
            None => Set::empty(),
        }
    }

    pub open spec fn wf(&self) -> bool {
        &&& self.per_consumer@.len() <= u32::MAX + 1
        &&& forall|i: int|
            0 <= i < self.per_consumer@.len() ==> match #[trigger] self.per_consumer@[i] {
                Some(p) => p.wf(),
                None => true,
            }
    }

    pub fn new() -> (r: AckRelay)
        ensures
            r.wf(),
            r.per_consumer@.len() == 0,
    {
        AckRelay { per_consumer: Vec::new() }
    }

    /// Make sure that `cid` has a slot of this generation. A change of
    /// generation replaces the slot: deferred acks do not outlive a session.
    pub fn ensure(&mut self, cid: u32, generation: u32)
        requires
            old(self).wf(),
        ensures
            final(self).wf(),
            final(self).slot(cid) is Some,
            final(self).slot(cid)->0.generation == generation,
            old(self).slot(cid) is Some && old(self).slot(cid)->0.generation == generation
                ==> final(self).slot(cid) == old(self).slot(cid),
            !(old(self).slot(cid) is Some && old(self).slot(cid)->0.generation == generation) ==> {
                &&& final(self).times(cid) == Map::<u64, u64>::empty()
                &&& final(self).set(cid) == Set::<u64>::empty()
            },
            forall|c: u32| c != cid ==> #[trigger] final(self).slot(c) == old(self).slot(c),
    {
        let i: usize = cid as usize;
        while self.per_consumer.len() <= i
            invariant
                i == cid,
                self.wf(),
                self.per_consumer@.len() <= i ==> self.slot(cid) is None,
                forall|c: u32| #[trigger] self.slot(c) == old(self).slot(c),
            decreases i + 1 - self.per_consumer@.len(),
        {
            let ghost r1 = *self;
            self.per_consumer.push(None);
            assert forall|c: u32| #[trigger] self.slot(c) == old(self).slot(c) by {
                assert(self.slot(c) == r1.slot(c));
            }
        }
        let replace: bool = match &self.per_consumer[i] {
            Some(p) => p.generation != generation,
            None => true,
        };
        if replace {
            let ghost r0 = *self;
            self.per_consumer[i] = Some(ConsumerPending::new(generation));
            assert forall|c: u32| c != cid implies #[trigger] self.slot(c) == old(self).slot(c) by {
                assert(self.slot(c) == r0.slot(c));
            }
        }
    }

    /// Note a deferred ack. Returns whether it is new.
    pub fn record_deferred(&mut self, cid: u32, generation: u32, seq: u64, now_ms: u64) -> (r: bool)
        requires
            old(self).wf(),
        ensures
            final(self).wf(),
            ({
                let kept = old(self).slot(cid) is Some && old(self).slot(cid)->0.generation
                    == generation;
                let before = if kept {
                    old(self).times(cid)
                } else {
                    Map::empty()
                };
                &&& r == !before.contains_key(seq)
                &&& final(self).slot(cid) is Some
                &&& final(self).slot(cid)->0.generation == generation
                &&& final(self).times(cid) == if r {
                    before.insert(seq, now_ms)
                } else {
                    before
                }
                &&& final(self).set(cid) == before.dom().insert(seq)
            }),
            forall|c: u32| c != cid ==> #[trigger] final(self).slot(c) == old(self).slot(c),
    {
        self.ensure(cid, generation);
        let ghost r0 = *self;
        let i: usize = cid as usize;
        let newly: bool = match &mut self.per_consumer[i] {
            Some(p) => p.record(seq, now_ms),
            None => false,
        };
        assert(self.set(cid) =~= r0.set(cid).insert(seq));
        assert forall|c: u32| c != cid implies #[trigger] self.slot(c) == old(self).slot(c) by {
            assert(self.slot(c) == r0.slot(c));
        }
        newly
    }

    /// Generation of a consumer's slot, 0 where it has none.
    pub fn generation_of(&self, cid: u32) -> (r: u32)
        ensures
            r == match self.slot(cid) {
                Some(p) => p.generation,
                None => 0,
            },
    {
        let i: usize = cid as usize;
        if i < self.per_consumer.len() {
            match &self.per_consumer[i] {
                Some(p) => p.generation,
                None => 0,
            }
        } else {
            0
        }
    }

    /// Whether an ack is deferred: no slot, never deferred.
    pub fn is_pending(&self, cid: u32, seq: u64) -> (r: bool)
        requires
            self.wf(),
        ensures
            r ==> self.set(cid).contains(seq),
            self.set(cid).len() < two32() ==> r == self.set(cid).contains(seq),
            self.slot(cid) is Some ==> r == (self.slot(cid)->0.count != 0 && self.set(
                cid,
            ).contains(seq)),
    {
        let i: usize = cid as usize;
        if i < self.per_consumer.len() {
            match &self.per_consumer[i] {
                Some(p) => {
                    proof {
                        assert(p.wf());
                        if p.set().len() == 0 {
                            assert(p.set() =~= Set::empty());
                        }
                    }
                    p.is_pending(seq)
                },
                None => false,
            }
        } else {
            false
        }
    }

    /// Drop what the broker's cursor covers. Returns how many entries that was
    /// (modulo 2^32).
    pub fn purge_up_to(&mut self, cid: u32, new_cursor: u64) -> (r: u32)
        requires
            old(self).wf(),
        ensures
            final(self).wf(),
            final(self).set(cid) == over(old(self).set(cid), new_cursor),
            r as nat == up_to(old(self).set(cid), new_cursor).len() % two32(),
            final(self).slot(cid) is Some == old(self).slot(cid) is Some,
            old(self).slot(cid) is Some ==> final(self).slot(cid)->0.generation == old(self).slot(
                cid,
            )->0.generation,
            final(self).times(cid) == later(old(self).times(cid), new_cursor),
            forall|c: u32| c != cid ==> #[trigger] final(self).slot(c) == old(self).slot(c),
    {
        let i: usize = cid as usize;
        proof {
            assert(over(Set::<u64>::empty(), new_cursor) =~= Set::empty());
            assert(up_to(Set::<u64>::empty(), new_cursor) =~= Set::empty());
            assert(later(Map::empty(), new_cursor) =~= Map::empty());
        }
        if i < self.per_consumer.len() {
            match &mut self.per_consumer[i] {
                Some(p) => p.purge_up_to(new_cursor),
                None => 0,
            }
        } else {
            0
        }
    }

    /// Up to `max` of a consumer's smallest deferred numbers, ascending.
    pub fn drain_ascending(&self, cid: u32, max: usize) -> (r: Vec<u64>)
        ensures
            r@ == smallest(self.set(cid), max as nat),
            ascending(r@),
            r@.len() == if self.set(cid).len() < max {
                self.set(cid).len()
            } else {
                max as nat
            },
            forall|x: u64| #[trigger] r@.contains(x) ==> self.set(cid).contains(x),
            forall|x: u64, y: u64|
                r@.contains(x) && self.set(cid).contains(y) && !r@.contains(y) ==> x < y,
    {
        let i: usize = cid as usize;
        proof {
            let none = Seq::<u64>::empty();
            assert(none.to_set() =~= Set::empty());
            assert(lists(none, Set::empty()));
            assert(lists(listing(Set::empty()), Set::empty()));
            listing_is_unique(none, listing(Set::empty()));
            assert(smallest(Set::empty(), max as nat) =~= none);
        }
        if i < self.per_consumer.len() {
            match &self.per_consumer[i] {
                Some(p) => p.drain_ascending(max),
                None => Vec::new(),
            }
        } else {
            Vec::new()
        }
    }

    /// Consumers with deferred acks and their generations, in order of id.
    pub fn active_consumers(&self) -> (r: Vec<(u32, u32)>)
        requires
            self.wf(),
        ensures
            r@ == active(self.per_consumer@),
    {
        let mut out: Vec<(u32, u32)> = Vec::new();
        let mut i: usize = 0;
        assert(self.per_consumer@.take(0) =~= Seq::empty());
        while i < self.per_consumer.len()
            invariant
                i <= self.per_consumer@.len() <= u32::MAX + 1,
                out@ == active(self.per_consumer@.take(i as int)),
            decreases self.per_consumer@.len() - i,
        {
            proof {
                assert(self.per_consumer@.take(i + 1).drop_last() =~= self.per_consumer@.take(
                    i as int,
                ));
            }
            if let Some(p) = &self.per_consumer[i] {
                if p.count > 0 {
                    out.push((i as u32, p.generation));
                }
            }
            i = i + 1;
        }
        assert(self.per_consumer@.take(i as int) =~= self.per_consumer@);
        out
    }

    /// Deferred acks over all consumers (modulo 2^64).
    pub fn hot_count(&self) -> (r: u64)
        ensures
            r as nat == total(self.per_consumer@) % 0x1_0000_0000_0000_0000,
    {
        let mut sum: u64 = 0;
        let mut i: usize = 0;
        while i < self.per_consumer.len()
            invariant
                i <= self.per_consumer@.len(),
                sum as nat == total(self.per_consumer@.take(i as int)) % 0x1_0000_0000_0000_0000,
            decreases self.per_consumer@.len() - i,
        {
            proof {
                assert(self.per_consumer@.take(i + 1).drop_last() =~= self.per_consumer@.take(
                    i as int,
                ));
            }
            if let Some(p) = &self.per_consumer[i] {
                sum = sum.wrapping_add(p.count as u64);
            }
            i = i + 1;
        }
        assert(self.per_consumer@.take(i as int) =~= self.per_consumer@);
        sum
    }

    /// Age of the oldest deferred ack of any consumer, 0 where there is none.
    pub fn oldest_pending_age_ms(&self, now_ms: u64) -> (r: u64)
        requires
            self.wf(),
        ensures
            forall|c: u32, s: u64| #[trigger]
                self.times(c).contains_key(s) ==> now_ms - self.times(c)[s] <= r,
            r == 0 || exists|c: u32, s: u64| #[trigger]
                self.times(c).contains_key(s) && now_ms - self.times(c)[s] == r,
    {
        let mut max: u64 = 0;
        let mut i: usize = 0;
        while i < self.per_consumer.len()
            invariant
                self.wf(),
                i <= self.per_consumer@.len() <= u32::MAX + 1,
                forall|c: u32, s: u64|
                    c < i && #[trigger] self.times(c).contains_key(s) ==> now_ms - self.times(c)[s]
                        <= max,
                max == 0 || exists|c: u32, s: u64| #[trigger]
                    self.times(c).contains_key(s) && now_ms - self.times(c)[s] == max,
            decreases self.per_consumer@.len() - i,
        {
            let ghost c0 = i as u32;
            if let Some(p) = &self.per_consumer[i] {
                proof {
                    assert(self.slot(c0) == Some(*p));
                    assert(p.wf());
                }
                if !p.pending.is_empty() {
                    let age: u64 = now_ms.saturating_sub(p.oldest_ts_ms);
                    let ghost before = max;
                    if age > max {
                        max = age;
                        proof {
                            let s = choose|s: u64| #[trigger] p.times().contains_key(s)
                                && p.times()[s] == p.oldest_ts_ms;
                            assert(self.times(c0).contains_key(s));
                        }
                    }
                    assert forall|c: u32, s: u64|
                        c < i + 1 && #[trigger] self.times(c).contains_key(s) implies now_ms
                        - self.times(c)[s] <= max by {
                        if c == c0 {
                            assert(p.times().contains_key(s));
                        }
                    }
                }
            }
            i = i + 1;
        }
        max
    }

    /// Expire the sets whose oldest entry is at or past the cutoff. Returns
    /// how many entries left (modulo 2^32).
    pub fn expire(&mut self, cutoff_ms: u64, now_ms: u64) -> (r: u32)
        requires
            old(self).wf(),
        ensures
            final(self).wf(),
            final(self).per_consumer@.len() == old(self).per_consumer@.len(),
            forall|i: int|
                0 <= i < old(self).per_consumer@.len() ==> expired_slot(
                    old(self).per_consumer@[i],
                    cutoff_ms,
                    #[trigger] final(self).per_consumer@[i],
                ),
            r as nat == expired_total(old(self).per_consumer@, cutoff_ms) % two32(),
    {
        let ghost v0 = self.per_consumer@;
        let mut sum: u32 = 0;
        let mut i: usize = 0;
        while i < self.per_consumer.len()
            invariant
                i <= v0.len(),
                v0 == old(self).per_consumer@,
                self.per_consumer@.len() == v0.len(),
                self.wf(),
                forall|j: int|
                    0 <= j < i ==> expired_slot(
                        v0[j],
                        cutoff_ms,
                        #[trigger] self.per_consumer@[j],
                    ),
                forall|j: int| i <= j < v0.len() ==> #[trigger] self.per_consumer@[j] == v0[j],
                sum as nat == expired_total(v0.take(i as int), cutoff_ms) % two32(),
            decreases v0.len() - i,
        {
            let ghost r0 = *self;
            proof {
                assert(v0.take(i + 1).drop_last() =~= v0.take(i as int));
                assert(self.per_consumer@[i as int] == v0[i as int]);
            }
            match &mut self.per_consumer[i] {
                Some(p) => {
                    let n: u32 = p.expire_older_than(cutoff_ms, now_ms);
                    sum = sum.wrapping_add(n);
                },
                None => {},
            }
            proof {
                assert forall|j: int| 0 <= j < i + 1 implies expired_slot(
                    v0[j],
                    cutoff_ms,
                    #[trigger] self.per_consumer@[j],
                ) by {
                    if j < i {
                        assert(self.per_consumer@[j] == r0.per_consumer@[j]);
                    }
                }
            }
            i = i + 1;
        }
        assert(v0.take(i as int) =~= v0);
        sum
    }
}

/// Consumers of a prefix of the slots that hold anything, with generations.
pub open spec fn active(slots: Seq<Option<ConsumerPending>>) -> Seq<(u32, u32)>
    decreases slots.len(),
{
    if slots.len() == 0 {
        Seq::empty()
    } else {
        let before = active(slots.drop_last());
        match slots.last() {
            Some(p) => if p.count > 0 {
                before.push(((slots.len() - 1) as u32, p.generation))
            } else {
                before
            },
            None => before,
        }
    }
}

/// Sum of the counts.
pub open spec fn total(slots: Seq<Option<ConsumerPending>>) -> nat
    decreases slots.len(),
{
    if slots.len() == 0 {
        0
    } else {
        total(slots.drop_last()) + match slots.last() {
            Some(p) => p.count as nat,
            None => 0,
        }
    }
}

/// Whether a slot's oldest entry is at or past the cutoff.
pub open spec fn is_expired(slot: Option<ConsumerPending>, cutoff_ms: u64) -> bool {
    slot matches Some(p) && p.due(cutoff_ms)
}

/// A slot after expiry: emptied if due, else untouched.
pub open spec fn expired_slot(
    before: Option<ConsumerPending>,
    cutoff_ms: u64,
    after: Option<ConsumerPending>,
) -> bool {
    if is_expired(before, cutoff_ms) {
        after matches Some(p) && p.times() == Map::<u64, u64>::empty() && p.generation
            == before->0.generation
    } else {
        after == before
    }
}

/// Entries in the slots that are due.
pub open spec fn expired_total(slots: Seq<Option<ConsumerPending>>, cutoff_ms: u64) -> nat
    decreases slots.len(),
{
    if slots.len() == 0 {
        0
    } else {
        expired_total(slots.drop_last(), cutoff_ms) + if is_expired(slots.last(), cutoff_ms) {
            slots.last()->0.set().len()
        } else {
            0
        }
    }
}

/// The deferred acks over all consumers, as pairs of consumer and number.
pub open spec fn pairs(r: AckRelay) -> Set<(u32, u64)> {
    Set::new(|p: (u32, u64)| r.set(p.0).contains(p.1))
}

/// How many pairs a list of slots holds.
pub open spec fn pair_count(slots: Seq<Option<ConsumerPending>>) -> nat
    decreases slots.len(),
{
    if slots.len() == 0 {
        0
    } else {
        pair_count(slots.drop_last()) + match slots.last() {
            Some(p) => p.set().len(),
            None => 0,
        }
    }
}

/// No consumer has so many deferred acks that its counter comes round.
pub open spec fn counts_fit(r: AckRelay) -> bool {
    forall|c: u32| (#[trigger] r.set(c)).len() < two32()
}

/// Pairs of the first `n` slots.
spec fn pairs_below(r: AckRelay, n: int) -> Set<(u32, u64)> {
    Set::new(|p: (u32, u64)| p.0 < n && r.set(p.0).contains(p.1))
}

/// A set and the pairs of one consumer with its members are of one size.
proof fn paired_len(d: Set<u64>, c: u32)
    requires
        d.finite(),
    ensures
        d.map(|s: u64| (c, s)).finite(),
        d.map(|s: u64| (c, s)).len() == d.len(),
{
    let f = |s: u64| (c, s);
    assert(vstd::relations::injective_on(f, d)) by {
        assert forall|a: u64, b: u64| d.contains(a) && d.contains(b) && #[trigger] f(a)
            == #[trigger] f(b) implies a == b by {}
    }
    d.lemma_map_finite(f);
    vstd::set_lib::lemma_map_size(d, d.map(f), f);
}

proof fn pairs_below_len(r: AckRelay, n: int)
    requires
        r.wf(),
        0 <= n <= r.per_consumer@.len(),
    ensures
        pairs_below(r, n).finite(),
        pairs_below(r, n).len() == pair_count(r.per_consumer@.take(n)),
        counts_fit(r) ==> pair_count(r.per_consumer@.take(n)) == total(r.per_consumer@.take(n)),
    decreases n,
{
    let slots = r.per_consumer@;
    if n == 0 {
        assert(pairs_below(r, 0) =~= Set::empty());
        assert(slots.take(0) =~= Seq::empty());
    } else {
        pairs_below_len(r, n - 1);
        assert(slots.take(n).drop_last() =~= slots.take(n - 1));
        let c = (n - 1) as u32;
        let d = r.set(c);
        assert(r.slot(c) == slots[n - 1]);
        match slots[n - 1] {
            Some(p) => {
                assert(p.wf());
            },
            None => {},
        }
        paired_len(d, c);
        let mine = d.map(|s: u64| (c, s));
        let rest = pairs_below(r, n - 1);
        assert(pairs_below(r, n) =~= rest.union(mine)) by {
            assert forall|p: (u32, u64)| pairs_below(r, n).contains(p) implies rest.union(
                mine,
            ).contains(p) by {
                if p.0 == c {
                    assert(d.contains(p.1));
                    assert(mine.contains((c, p.1)));
                }
            }
            assert forall|p: (u32, u64)| rest.union(mine).contains(p) implies pairs_below(
                r,
                n,
            ).contains(p) by {
                if mine.contains(p) {
                    let s = choose|s: u64| d.contains(s) && p == (c, s);
                    assert(p.0 == c);
                }
            }
        }
        assert(rest.disjoint(mine)) by {
            assert forall|p: (u32, u64)| rest.contains(p) implies !mine.contains(p) by {}
        }
        vstd::set_lib::lemma_set_disjoint_lens(rest, mine);
        if counts_fit(r) {
            assert(r.set(c).len() < two32());
        }
    }
}

/// The gauge of deferred acks counts the pending pairs: it is what `hot_count`
/// adds up, and the number of pairs of a consumer and a deferred number.
pub proof fn hot_count_counts_pairs(r: AckRelay)
    requires
        r.wf(),
        counts_fit(r),
    ensures
        pairs(r).finite(),
        total(r.per_consumer@) == pairs(r).len(),
        pair_count(r.per_consumer@) == pairs(r).len(),
{
    let n = r.per_consumer@.len() as int;
    pairs_below_len(r, n);
    assert(r.per_consumer@.take(n) =~= r.per_consumer@);
    assert(pairs_below(r, n) =~= pairs(r));
}

/// A change in one consumer's deferred set moves the number of pairs by as
/// much.
proof fn pairs_change(r0: AckRelay, r1: AckRelay, cid: u32)
    requires
        r0.wf(),
        r1.wf(),
        forall|c: u32| c != cid ==> #[trigger] r1.slot(c) == r0.slot(c),
    ensures
        pairs(r0).finite(),
        pairs(r1).finite(),
        pairs(r1).len() == pairs(r0).len() - r0.set(cid).len() + r1.set(cid).len(),
{
    let n0 = r0.per_consumer@.len() as int;
    let n1 = r1.per_consumer@.len() as int;
    pairs_below_len(r0, n0);
    pairs_below_len(r1, n1);
    assert(pairs_below(r0, n0) =~= pairs(r0));
    assert(pairs_below(r1, n1) =~= pairs(r1));
    let d0 = r0.set(cid);
    let d1 = r1.set(cid);
    set_is_finite(r0, cid);
    set_is_finite(r1, cid);
    paired_len(d0, cid);
    paired_len(d1, cid);
    let a0 = d0.map(|s: u64| (cid, s));
    let a1 = d1.map(|s: u64| (cid, s));
    let rest = pairs(r0).filter(|p: (u32, u64)| p.0 != cid);
    assert(pairs(r0) =~= rest.union(a0)) by {
        assert forall|p: (u32, u64)| pairs(r0).contains(p) implies rest.union(a0).contains(p) by {
            if p.0 == cid {
                assert(d0.contains(p.1));
                assert(a0.contains((cid, p.1)));
            }
        }
        assert forall|p: (u32, u64)| a0.contains(p) implies pairs(r0).contains(p) by {
            let s = choose|s: u64| d0.contains(s) && p == (cid, s);
        }
    }
    assert(pairs(r1) =~= rest.union(a1)) by {
        assert forall|p: (u32, u64)| pairs(r1).contains(p) implies rest.union(a1).contains(p) by {
            if p.0 == cid {
                assert(d1.contains(p.1));
                assert(a1.contains((cid, p.1)));
            } else {
                assert(r1.slot(p.0) == r0.slot(p.0));
            }
        }
        assert forall|p: (u32, u64)| rest.union(a1).contains(p) implies pairs(r1).contains(p) by {
            if a1.contains(p) {
                let s = choose|s: u64| d1.contains(s) && p == (cid, s);
            } else {
                assert(r1.slot(p.0) == r0.slot(p.0));
            }
        }
    }
    vstd::set_lib::lemma_set_disjoint_lens(rest, a0);
    vstd::set_lib::lemma_set_disjoint_lens(rest, a1);
}

proof fn set_is_finite(r: AckRelay, cid: u32)
    requires
        r.wf(),
    ensures
        r.set(cid).finite(),
{
    if (cid as int) < r.per_consumer@.len() {
        match r.per_consumer@[cid as int] {
            Some(p) => {
                assert(p.wf());
            },
            None => {},
        }
    }
}

/// A purge lowers the number of pairs by what it drops, which is what it
/// returns.
pub proof fn purge_lowers_hot_count(r0: AckRelay, r1: AckRelay, cid: u32, cursor: u64)
    requires
        r0.wf(),
        r1.wf(),
        r1.set(cid) == over(r0.set(cid), cursor),
        forall|c: u32| c != cid ==> #[trigger] r1.slot(c) == r0.slot(c),
    ensures
        pairs(r1).len() == pairs(r0).len() - up_to(r0.set(cid), cursor).len(),
{
    pairs_change(r0, r1, cid);
    set_is_finite(r0, cid);
    let d = r0.set(cid);
    assert(d =~= over(d, cursor).union(up_to(d, cursor)));
    vstd::set_lib::lemma_set_disjoint_lens(over(d, cursor), up_to(d, cursor));
}

/// Deferring an ack in its session raises the number of pairs by one where it
/// is new, which is when it returns `true`; otherwise by none.
pub proof fn deferring_raises_hot_count(r0: AckRelay, r1: AckRelay, cid: u32, seq: u64)
    requires
        r0.wf(),
        r1.wf(),
        r1.set(cid) == r0.set(cid).insert(seq),
        forall|c: u32| c != cid ==> #[trigger] r1.slot(c) == r0.slot(c),
    ensures
        pairs(r1).len() == pairs(r0).len() + if r0.set(cid).contains(seq) {
            0int
        } else {
            1int
        },
{
    pairs_change(r0, r1, cid);
    set_is_finite(r0, cid);
    if r0.set(cid).contains(seq) {
        assert(r0.set(cid).insert(seq) =~= r0.set(cid));
    }
}

proof fn expired_count(
    s0: Seq<Option<ConsumerPending>>,
    s1: Seq<Option<ConsumerPending>>,
    cutoff_ms: u64,
)
    requires
        s0.len() == s1.len(),
        forall|i: int| 0 <= i < s0.len() ==> expired_slot(s0[i], cutoff_ms, #[trigger] s1[i]),
    ensures
        pair_count(s1) == pair_count(s0) - expired_total(s0, cutoff_ms),
    decreases s0.len(),
{
    if s0.len() > 0 {
        let n = s0.len() - 1;
        assert forall|i: int| 0 <= i < s0.drop_last().len() implies expired_slot(
            s0.drop_last()[i],
            cutoff_ms,
            #[trigger] s1.drop_last()[i],
        ) by {
            assert(expired_slot(s0[i], cutoff_ms, s1[i]));
        }
        expired_count(s0.drop_last(), s1.drop_last(), cutoff_ms);
        assert(expired_slot(s0[n], cutoff_ms, s1[n]));
        if is_expired(s0[n], cutoff_ms) {
            assert(s1[n]->0.set() =~= Set::empty());
        }
    }
}

/// Expiry lowers the number of pairs by what it drops, which is what it
/// returns.
pub proof fn expiry_lowers_hot_count(r0: AckRelay, r1: AckRelay, cutoff_ms: u64)
    requires
        r0.wf(),
        r1.wf(),
        r1.per_consumer@.len() == r0.per_consumer@.len(),
        forall|i: int|
            0 <= i < r0.per_consumer@.len() ==> expired_slot(
                r0.per_consumer@[i],
                cutoff_ms,
                #[trigger] r1.per_consumer@[i],
            ),
    ensures
        pairs(r1).len() == pairs(r0).len() - expired_total(r0.per_consumer@, cutoff_ms),
{
    let n = r0.per_consumer@.len() as int;
    pairs_below_len(r0, n);
    pairs_below_len(r1, n);
    assert(pairs_below(r0, n) =~= pairs(r0));
    assert(pairs_below(r1, n) =~= pairs(r1));
    assert(r0.per_consumer@.take(n) =~= r0.per_consumer@);
    assert(r1.per_consumer@.take(n) =~= r1.per_consumer@);
    expired_count(r0.per_consumer@, r1.per_consumer@, cutoff_ms);
}

/// The consumers listed as active are those with something deferred, each once
/// and with its generation.
pub proof fn whoever_waits_is_active(r: AckRelay, cid: u32, generation: u32)
    requires
        r.wf(),
        counts_fit(r),
    ensures
        active(r.per_consumer@).contains((cid, generation)) <==> r.set(cid).len() > 0 && r.slot(
            cid,
        )->0.generation == generation,
        forall|i: int, j: int|
            #![trigger active(r.per_consumer@)[i], active(r.per_consumer@)[j]]
            0 <= i < j < active(r.per_consumer@).len() ==> active(r.per_consumer@)[i].0 < active(
                r.per_consumer@,
            )[j].0,
{
    active_members(r.per_consumer@, cid, generation);
    if (cid as int) < r.per_consumer@.len() {
        assert(r.set(cid).len() < two32());
        match r.per_consumer@[cid as int] {
            Some(p) => {
                assert(p.wf());
            },
            None => {},
        }
    }
}

proof fn active_members(slots: Seq<Option<ConsumerPending>>, cid: u32, generation: u32)
    requires
        slots.len() <= u32::MAX + 1,
    ensures
        active(slots).contains((cid, generation)) <==> (cid as int) < slots.len()
            && slots[cid as int] is Some && slots[cid as int]->0.count > 0
            && slots[cid as int]->0.generation == generation,
        forall|i: int| 0 <= i < active(slots).len() ==> (#[trigger] active(slots)[i]).0
            < slots.len(),
        forall|i: int, j: int|
            #![trigger active(slots)[i], active(slots)[j]]
            0 <= i < j < active(slots).len() ==> active(slots)[i].0 < active(slots)[j].0,
    decreases slots.len(),
{
    if slots.len() > 0 {
        let t = slots.drop_last();
        let n = (slots.len() - 1) as u32;
        active_members(t, cid, generation);
        let a = active(t);
        let b = active(slots);
        let x = (cid, generation);
        if a.contains(x) {
            let j = choose|j: int| 0 <= j < a.len() && a[j] == x;
            assert(b[j] == x);
        }
        if b.contains(x) && !a.contains(x) {
            let j = choose|j: int| 0 <= j < b.len() && b[j] == x;
            if j < a.len() {
                assert(a[j] == x);
            }
        }
        if b.len() > a.len() {
            assert(b[a.len() as int].0 == n);
            if cid == n && b[a.len() as int].1 == generation {
                assert(b.contains(x));
            }
        }
    }
}

/// Expiry drops a consumer's deferred acks together, once the oldest of them
/// was deferred at or before the cutoff, and not before. It keeps the
/// generation.
pub proof fn expiry_waits_for_the_oldest(
    before: ConsumerPending,
    cutoff_ms: u64,
    after: Option<ConsumerPending>,
    s: u64,
)
    requires
        expired_slot(Some(before), cutoff_ms, after),
        before.pending@.contains_key(s),
    ensures
        before.pending@[s] <= cutoff_ms ==> after is Some && after->0.pending@.dom()
            == Set::<u64>::empty() && after->0.generation == before.generation,
        (forall|k: u64| #[trigger] before.pending@.contains_key(k) ==> before.pending@[k]
            > cutoff_ms) ==> after == Some(before),
{
    if before.pending@[s] <= cutoff_ms {
        assert(before.times().contains_key(s));
        assert(after->0.times().dom() =~= Set::empty());
    }
    if forall|k: u64| #[trigger] before.pending@.contains_key(k) ==> before.pending@[k] > cutoff_ms {
        assert(!before.due(cutoff_ms)) by {
            if before.due(cutoff_ms) {
                let k = choose|k: u64| #[trigger] before.times().contains_key(k) && before.times()[k]
                    <= cutoff_ms;
                assert(before.pending@.contains_key(k));
            }
        }
    }
}

} // verus!
