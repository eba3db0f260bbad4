//! The handlers of a service, by the subject prefix that each answers.

use crate::bytes::{begins, starts_with};
use vstd::prelude::*;

verus! {

/// A registered handler.
#[derive(Debug)]
pub struct HandlerEntry<T> {
    pub id: u64,
    /// What the subject of a request for it begins with.
    pub prefix: Vec<u8>,
    pub handler: T,
}

/// The handlers of a service, in order of registration.
#[derive(Debug)]
pub struct Handlers<T> {
    pub entries: Vec<HandlerEntry<T>>,
    pub next_id: u64,
}

/// Number `i` is the first handler whose prefix a subject begins with.
pub open spec fn first_fit<T>(entries: Seq<HandlerEntry<T>>, subject: Seq<u8>, i: int) -> bool {
    &&& 0 <= i < entries.len()
    &&& begins(subject, entries[i].prefix@)
    &&& forall|j: int| 0 <= j < i ==> !begins(subject, (#[trigger] entries[j]).prefix@)
}

/// No handler answers a subject.
pub open spec fn none_fits<T>(entries: Seq<HandlerEntry<T>>, subject: Seq<u8>) -> bool {
    forall|j: int| 0 <= j < entries.len() ==> !begins(subject, (#[trigger] entries[j]).prefix@)
}

impl<T> Handlers<T> {
    /// Ids ascend, and none is given out twice.
    pub open spec fn wf(&self) -> bool {
        &&& forall|i: int|
            0 <= i < self.entries@.len() ==> (#[trigger] self.entries@[i]).id < self.next_id
        &&& forall|i: int, j: int|
            #![trigger self.entries@[i], self.entries@[j]]
            0 <= i < j < self.entries@.len() ==> self.entries@[i].id < self.entries@[j].id
    }

    /// The handler with this id is number `i`.
    pub open spec fn id_at(&self, id: u64, i: int) -> bool {
        0 <= i < self.entries@.len() && self.entries@[i].id == id
    }

    pub fn new() -> (r: Handlers<T>)
        ensures
            r.wf(),
            r.entries@.len() == 0,
            r.next_id == 1,
    {
        Handlers { entries: Vec::new(), next_id: 1 }
    }

    /// Register a handler; returns the id by which it is removed.
    pub fn insert(&mut self, prefix: Vec<u8>, handler: T) -> (id: u64)
        requires
            old(self).wf(),
            old(self).next_id < u64::MAX,
        ensures
            final(self).wf(),
            id == old(self).next_id,
            final(self).next_id == old(self).next_id + 1,
            final(self).entries@ == old(self).entries@.push(
                (HandlerEntry { id, prefix, handler }),
            ),
    {
        let id: u64 = self.next_id;
        self.entries.push(HandlerEntry { id, prefix, handler });
        self.next_id = id + 1;
        id
    }

    /// Take a handler out. The others stay, in their order.
    pub fn remove(&mut self, id: u64) -> (r: Option<T>)
        requires
            old(self).wf(),
        ensures
            final(self).wf(),
            final(self).next_id == old(self).next_id,
            match r {
                Some(h) => exists|i: int| #[trigger]
                    old(self).id_at(id, i) && h == old(self).entries@[i].handler
                        && final(self).entries@ == old(self).entries@.remove(i),
                None => {
                    &&& forall|i: int| !old(self).id_at(id, i)
                    &&& final(self).entries@ == old(self).entries@
                },
            },
            forall|i: int|
                0 <= i < old(self).entries@.len() && (#[trigger] old(self).entries@[i]).id == id ==> r
                    == Some(old(self).entries@[i].handler) && final(self).entries@ == old(
                    self,
                ).entries@.remove(i),
            (forall|i: int| 0 <= i < old(self).entries@.len() ==> (#[trigger] old(
                self,
            ).entries@[i]).id != id) ==> r is None && final(self).entries@ == old(self).entries@,
    {
        let ghost h0 = *self;
        let mut i: usize = 0;
        while i < self.entries.len()
            invariant
                i <= self.entries@.len(),
                *self == h0,
                h0.wf(),
                h0 == *old(self),
                forall|j: int| 0 <= j < i ==> (#[trigger] self.entries@[j]).id != id,
            decreases self.entries@.len() - i,
        {
            if self.entries[i].id == id {
                let e = self.entries.remove(i);
                proof {
                    assert(h0.id_at(id, i as int));
                    let n = self.entries@.len() as int;
                    assert forall|k: int| 0 <= k < n implies #[trigger] self.entries@[k]
                        == h0.entries@[if k < i { k } else { k + 1 }] by {}
                }
                return Some(e.handler);
            }
            i = i + 1;
        }
        None
    }

    /// The handler of a request: the one registered first whose prefix fits.
    pub fn find(&self, subject: &[u8]) -> (r: Option<&T>)
        ensures
            match r {
                Some(h) => exists|i: int| #[trigger]
                    first_fit(self.entries@, subject@, i) && *h == self.entries@[i].handler,
                None => none_fits(self.entries@, subject@),
            },
            forall|i: int|
                0 <= i < self.entries@.len() && begins(
                    subject@,
                    (#[trigger] self.entries@[i]).prefix@,
                ) && (forall|j: int|
                    0 <= j < i ==> !begins(subject@, (#[trigger] self.entries@[j]).prefix@)) ==> r
                    == Some(&self.entries@[i].handler),
            (forall|i: int|
                0 <= i < self.entries@.len() ==> !begins(
                    subject@,
                    (#[trigger] self.entries@[i]).prefix@,
                )) ==> r is None,
    {
        let mut i: usize = 0;
        while i < self.entries.len()
            invariant
                i <= self.entries@.len(),
                forall|j: int|
                    0 <= j < i ==> !begins(subject@, (#[trigger] self.entries@[j]).prefix@),
            decreases self.entries@.len() - i,
        {
            if starts_with(subject, self.entries[i].prefix.as_slice()) {
                assert(first_fit(self.entries@, subject@, i as int));
                return Some(&self.entries[i].handler);
            }
            i = i + 1;
        }
        None
    }
}

// ── laws ───────────────────────────────────────────────────────────────────
/// A stopped handler gets no more requests, and stopping it takes none from
/// the others: a request that another handler answered is still answered by
/// that one.
pub proof fn stopped_handler_is_not_found<T>(
    h0: Handlers<T>,
    k: int,
    h1: Handlers<T>,
    subject: Seq<u8>,
    i: int,
)
    requires
        h0.wf(),
        0 <= k < h0.entries@.len(),
        h1.entries@ == h0.entries@.remove(k),
        first_fit(h0.entries@, subject, i),
    ensures
        forall|j: int|
            0 <= j < h1.entries@.len() ==> (#[trigger] h1.entries@[j]).id != h0.entries@[k].id,
        i != k ==> {
            let j = if i < k {
                i
            } else {
                i - 1
            };
            first_fit(h1.entries@, subject, j) && h1.entries@[j] == h0.entries@[i]
        },
{
    let n = h1.entries@.len() as int;
    assert forall|j: int| 0 <= j < n implies #[trigger] h1.entries@[j]
        == h0.entries@[if j < k { j } else { j + 1 }] by {}
    assert forall|j: int| 0 <= j < n implies (#[trigger] h1.entries@[j]).id
        != h0.entries@[k].id by {
        let m = if j < k { j } else { j + 1 };
        assert(h1.entries@[j] == h0.entries@[m]);
        if m < k {
            assert(h0.entries@[m].id < h0.entries@[k].id);
        } else {
            assert(h0.entries@[k].id < h0.entries@[m].id);
        }
    }
}

} // verus!
