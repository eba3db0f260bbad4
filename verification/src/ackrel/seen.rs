//! Bounded first-in-first-out guard against redelivery of
//! `(consumer_id, seq)` pairs.

use std::collections::{BTreeSet, VecDeque};
use vstd::prelude::*;

verus! {

broadcast use vstd::laws_cmp::group_laws_cmp;

/// Default bound on remembered pairs.
pub const DEFAULT_CAP: usize = 1_000_000;

/// The most recent pairs, at most `cap` of them.
pub struct SeenCache {
    pub cap: usize,
    pub set: BTreeSet<(u32, u64)>,
    pub fifo: VecDeque<(u32, u64)>,
}

impl SeenCache {
    /// The remembered pairs, oldest first.
    pub open spec fn pairs(&self) -> Seq<(u32, u64)> {
        self.fifo@
    }

    /// The lookup set holds exactly the pairs of the queue, each of which
    /// stands there once.
    pub open spec fn wf(&self) -> bool {
        &&& self.fifo@.no_duplicates()
        &&& self.set@ == self.fifo@.to_set()
        &&& self.fifo@.len() <= self.cap
    }

    pub fn new() -> (r: SeenCache)
        ensures
            r.wf(),
            r.cap == DEFAULT_CAP,
            r.cap == 1_000_000,
            r.pairs().len() == 0,
    {
        SeenCache::with_cap(DEFAULT_CAP)
    }

    pub fn with_cap(cap: usize) -> (r: SeenCache)
        ensures
            r.wf(),
            r.cap == cap,
            r.pairs().len() == 0,
    {
        let r = SeenCache { cap, set: BTreeSet::new(), fifo: VecDeque::new() };
        assert(r.set@ =~= r.fifo@.to_set());
        r
    }

    /// `true` if the pair is new (and is now remembered, at the cost of the
    /// oldest one over the bound); `false` for a redelivery.
    pub fn insert_check(&mut self, cid: u32, seq: u64) -> (r: bool)
        requires
            old(self).wf(),
        ensures
            final(self).wf(),
            final(self).cap == old(self).cap,
            r == !old(self).pairs().contains((cid, seq)),
            final(self).pairs() == if !r {
                old(self).pairs()
            } else {
                let all = old(self).pairs().push((cid, seq));
                if all.len() > old(self).cap {
                    all.skip(1)
                } else {
                    all
                }
            },
    {
        let key: (u32, u64) = (cid, seq);
        let ghost p0 = self.fifo@;
        if !self.set.insert(key) {
            assert(self.set@ =~= old(self).set@);
            return false;
        }
        self.fifo.push_back(key);
        let ghost all = self.fifo@;
        proof {
            assert(!p0.contains(key));
            assert(all.no_duplicates());
            assert(self.set@ =~= all.to_set()) by {
                assert forall|k: (u32, u64)| self.set@.contains(k) == all.to_set().contains(k) by {
                    if p0.contains(k) {
                        let j = choose|j: int| 0 <= j < p0.len() && p0[j] == k;
                        assert(all[j] == k);
                    }
                    assert(all[p0.len() as int] == key);
                }
            }
        }
        if self.fifo.len() > self.cap {
            if let Some(old_key) = self.fifo.pop_front() {
                self.set.remove(&old_key);
                proof {
                    let rest = all.skip(1);
                    assert(self.fifo@ =~= rest);
                    assert(old_key == all[0]);
                    assert(rest.no_duplicates());
                    assert(self.set@ =~= rest.to_set()) by {
                        assert forall|k: (u32, u64)| self.set@.contains(k) == rest.to_set().contains(
                            k,
                        ) by {
                            if rest.contains(k) {
                                let j = choose|j: int| 0 <= j < rest.len() && rest[j] == k;
                                assert(all[j + 1] == k);
                            }
                            if all.contains(k) && k != old_key {
                                let j = choose|j: int| 0 <= j < all.len() && all[j] == k;
                                assert(rest[j - 1] == k);
                            }
                        }
                    }
                }
            }
        }
        true
    }

    /// Number of remembered pairs.
    pub fn len(&self) -> (r: usize)
        requires
            self.wf(),
        ensures
            r == self.pairs().len(),
    {
        proof {
            self.fifo@.unique_seq_to_set();
        }
        self.set.len()
    }
}

} // verus!
