//! Instances that wait for an event, by id.

use vstd::prelude::*;

verus! {

/// A suspended instance, with its bytes as sequences.
pub struct SuspendedView {
    pub step_index: u16,
    pub state: Seq<u8>,
    pub context: Seq<u8>,
}

/// A suspended instance.
#[derive(Debug)]
pub struct SuspendedEntry {
    pub step_index: u16,
    /// What its handler wants to find again.
    pub state: Vec<u8>,
    pub context: Vec<u8>,
}

impl View for SuspendedEntry {
    type V = SuspendedView;

    open spec fn view(&self) -> SuspendedView {
        SuspendedView {
            step_index: self.step_index,
            state: self.state@,
            context: self.context@,
        }
    }
}

/// The suspended instances, each id once.
pub struct Suspensions {
    pub entries: Vec<(String, SuspendedEntry)>,
}

impl Suspensions {
    /// Entry number `i` is that of instance `id`.
    pub open spec fn entry_at(&self, id: Seq<char>, i: int) -> bool {
        0 <= i < self.entries@.len() && self.entries@[i].0@ == id
    }

    pub open spec fn wf(&self) -> bool {
        forall|i: int, j: int|
            #![trigger self.entries@[i], self.entries@[j]]
            0 <= i < j < self.entries@.len() ==> self.entries@[i].0@ != self.entries@[j].0@
    }
}

impl View for Suspensions {
    type V = Map<Seq<char>, SuspendedView>;

    open spec fn view(&self) -> Map<Seq<char>, SuspendedView> {
        Map::new(
            |id: Seq<char>| exists|i: int| self.entry_at(id, i),
            |id: Seq<char>| self.entries@[choose|i: int| self.entry_at(id, i)].1@,
        )
    }
}

impl Suspensions {
    pub fn new() -> (r: Suspensions)
        ensures
            r.wf(),
            r@ == Map::<Seq<char>, SuspendedView>::empty(),
    {
        let r = Suspensions { entries: Vec::new() };
        assert(r@ =~= Map::<Seq<char>, SuspendedView>::empty());
        r
    }

    /// The view at an instance is that of its entry.
    proof fn at(&self, i: int)
        requires
            self.wf(),
            0 <= i < self.entries@.len(),
        ensures
            self@.contains_key(self.entries@[i].0@),
            self@[self.entries@[i].0@] == self.entries@[i].1@,
    {
        let id = self.entries@[i].0@;
        assert(self.entry_at(id, i));
        let k = choose|k: int| self.entry_at(id, k);
        assert(self.entries@[k].0@ == self.entries@[i].0@);
        assert(k == i);
    }

    fn find(&self, id: &str) -> (r: Option<usize>)
        ensures
            match r {
                Some(i) => self.entry_at(id@, i as int),
                None => !self@.contains_key(id@),
            },
    {
        let key: String = id.to_owned();
        let mut i: usize = 0;
        while i < self.entries.len()
            invariant
                i <= self.entries@.len(),
                key@ == id@,
                forall|j: int| 0 <= j < i ==> (#[trigger] self.entries@[j]).0@ != id@,
            decreases self.entries@.len() - i,
        {
            if self.entries[i].0 == key {
                return Some(i);
            }
            i = i + 1;
        }
        None
    }

    /// The instance waits no longer.
    pub fn remove(&mut self, id: &str) -> (r: Option<SuspendedEntry>)
        requires
            old(self).wf(),
        ensures
            final(self).wf(),
            final(self)@ == old(self)@.remove(id@),
            match r {
                Some(e) => old(self)@.contains_key(id@) && e@ == old(self)@[id@],
                None => !old(self)@.contains_key(id@),
            },
    {
        let ghost s0 = *self;
        match self.find(id) {
            Some(i) => {
                let e = self.entries.remove(i);
                proof {
                    let k = i as int;
                    s0.at(k);
                    assert(forall|j: int|
                        0 <= j < self.entries@.len() ==> #[trigger] self.entries@[j]
                            == s0.entries@[if j < k {
                            j
                        } else {
                            j + 1
                        }]);
                    assert(self.wf());
                    assert forall|x: Seq<char>| self@.contains_key(x) == (s0@.contains_key(x) && x
                        != id@) by {
                        if self@.contains_key(x) {
                            let j = choose|j: int| self.entry_at(x, j);
                            let o = if j < k {
                                j
                            } else {
                                j + 1
                            };
                            assert(s0.entries@[o] == self.entries@[j]);
                            assert(s0.entry_at(x, o));
                            assert(s0.entries@[o].0@ != s0.entries@[k].0@);
                        }
                        if s0@.contains_key(x) && x != id@ {
                            let o = choose|o: int| s0.entry_at(x, o);
                            let j = if o < k {
                                o
                            } else {
                                o - 1
                            };
                            assert(self.entries@[j] == s0.entries@[o]);
                            assert(self.entry_at(x, j));
                        }
                    }
                    assert forall|x: Seq<char>| self@.contains_key(x) implies self@[x] == s0@[x] by {
                        let j = choose|j: int| self.entry_at(x, j);
                        let o = if j < k {
                            j
                        } else {
                            j + 1
                        };
                        self.at(j);
                        s0.at(o);
                        assert(s0.entries@[o] == self.entries@[j]);
                    }
                    assert(self@ =~= s0@.remove(id@));
                }
                Some(e.1)
            },
            None => {
                assert(self@ =~= s0@.remove(id@));
                None
            },
        }
    }

    /// The instance waits. A wait under the same id is replaced.
    pub fn insert(&mut self, id: &str, e: SuspendedEntry)
        requires
            old(self).wf(),
        ensures
            final(self).wf(),
            final(self)@ == old(self)@.insert(id@, e@),
    {
        let ghost s0 = *self;
        let _replaced = self.remove(id);
        let ghost s1 = *self;
        self.entries.push((id.to_owned(), e));
        proof {
            let n = s1.entries@.len() as int;
            assert forall|j: int| 0 <= j < n implies (#[trigger] s1.entries@[j]).0@ != id@ by {
                s1.at(j);
            }
            assert(forall|j: int| 0 <= j < n ==> #[trigger] self.entries@[j] == s1.entries@[j]);
            assert(self.wf());
            self.at(n);
            assert forall|x: Seq<char>| self@.contains_key(x) == (s1@.contains_key(x) || x
                == id@) by {
                if self@.contains_key(x) {
                    let j = choose|j: int| self.entry_at(x, j);
                    if j < n {
                        assert(s1.entry_at(x, j));
                    }
                }
                if s1@.contains_key(x) {
                    let j = choose|j: int| s1.entry_at(x, j);
                    assert(self.entry_at(x, j));
                }
            }
            assert forall|x: Seq<char>| s1@.contains_key(x) implies self@[x] == s1@[x] by {
                let j = choose|j: int| s1.entry_at(x, j);
                self.at(j);
                s1.at(j);
            }
            assert(self.entries@[n].0@ == id@);
            assert(self@[id@] == e@);
            assert forall|x: Seq<char>| self@.contains_key(x) implies #[trigger] self@[x]
                == s1@.insert(id@, e@)[x] by {
                if x != id@ {
                    assert(s1@.contains_key(x));
                }
            }
            assert(self@ =~= s1@.insert(id@, e@));
            assert(s1@.insert(id@, e@) =~= s0@.insert(id@, e@));
        }
    }
}

} // verus!
