//! Requests that await a reply, by request number.
//!
//! `T` is whatever wakes the caller. This table only says whom to wake with
//! what; waking is the owner's part.

use crate::ackstore::live::listing;
use crate::error::{ClientError, ErrorCode, RequestResult};
use crate::ordered::{lists, listing_is_unique, sorted_keys};
use std::collections::BTreeMap;
use vstd::prelude::*;

verus! {

broadcast use vstd::laws_cmp::group_laws_cmp;

/// Requests that one client can have outstanding. A broker that has stopped
/// answering must not grow the table without bound.
pub const DEFAULT_MAX_INFLIGHT: usize = 100_000;

pub struct Pending<T> {
    pub map: BTreeMap<u64, T>,
}

/// What a registration came to.
pub enum Registered<T> {
    /// The slot is reserved. A slot under the same number was replaced.
    Waiting(Option<T>),
    /// The table is full: wake this caller with `ChannelClosed`.
    Full(T),
}

impl<T> Pending<T> {
    pub open spec fn waiting(&self) -> Map<u64, T> {
        self.map@
    }

    pub open spec fn wf(&self) -> bool {
        self.map@.dom().len() <= DEFAULT_MAX_INFLIGHT
    }

    pub fn new() -> (r: Pending<T>)
        ensures
            r.wf(),
            r.waiting() == Map::<u64, T>::empty(),
    {
        Pending { map: BTreeMap::new() }
    }

    /// Reserve a slot for `seq`.
    pub fn register(&mut self, seq: u64, tx: T) -> (r: Registered<T>)
        requires
            old(self).wf(),
        ensures
            final(self).wf(),
            r is Full <==> old(self).waiting().dom().len() >= 100_000,
            if old(self).waiting().dom().len() >= DEFAULT_MAX_INFLIGHT {
                r == Registered::Full(tx) && final(self).waiting() == old(self).waiting()
            } else {
                &&& final(self).waiting() == old(self).waiting().insert(seq, tx)
                &&& r == Registered::Waiting(
                    if old(self).waiting().contains_key(seq) {
                        Some(old(self).waiting()[seq])
                    } else {
                        None
                    },
                )
            },
    {
        if self.map.len() >= DEFAULT_MAX_INFLIGHT {
            return Registered::Full(tx);
        }
        let replaced = self.map.insert(seq, tx);
        Registered::Waiting(replaced)
    }

    /// Resolve `seq` with a reply: the caller to wake and what to wake it
    /// with, where there is one.
    pub fn complete_ok(&mut self, seq: u64, payload: Vec<u8>) -> (r: Option<(T, RequestResult)>)
        requires
            old(self).wf(),
        ensures
            final(self).wf(),
            final(self).waiting() == old(self).waiting().remove(seq),
            r == (if old(self).waiting().contains_key(seq) {
                Some((old(self).waiting()[seq], RequestResult::Ok(payload)))
            } else {
                None
            }),
    {
        match self.cancel(seq) {
            Some(tx) => Some((tx, Ok(payload))),
            None => None,
        }
    }

    /// Resolve `seq` with a wire error code.
    pub fn complete_err(&mut self, seq: u64, code: u16, typed: Option<ErrorCode>) -> (r: Option<
        (T, RequestResult),
    >)
        requires
            old(self).wf(),
        ensures
            final(self).wf(),
            final(self).waiting() == old(self).waiting().remove(seq),
            r == (if old(self).waiting().contains_key(seq) {
                Some(
                    (
                        old(self).waiting()[seq],
                        RequestResult::Err(
                            match typed {
                                Some(c) => ClientError::Broker { code: c },
                                None => ClientError::BrokerUnknown(code),
                            },
                        ),
                    ),
                )
            } else {
                None
            }),
    {
        match self.cancel(seq) {
            Some(tx) => Some((tx, Err(ClientError::from_wire_code(code, typed)))),
            None => None,
        }
    }

    /// Give up on `seq`: its request never left the client.
    pub fn cancel(&mut self, seq: u64) -> (r: Option<T>)
        requires
            old(self).wf(),
        ensures
            final(self).wf(),
            final(self).waiting() == old(self).waiting().remove(seq),
            r == (if old(self).waiting().contains_key(seq) {
                Some(old(self).waiting()[seq])
            } else {
                None
            }),
    {
        let r = self.map.remove(&seq);
        assert(self.map@ =~= old(self).map@.remove(seq));
        r
    }

    /// The session is gone: every caller is to be woken with `Disconnected`,
    /// in order of request number.
    pub fn drain_disconnected(&mut self) -> (r: Vec<T>)
        requires
            old(self).wf(),
        ensures
            final(self).wf(),
            final(self).waiting() == Map::<u64, T>::empty(),
            r@ == listing(old(self).waiting().dom()).map_values(
                |seq: u64| old(self).waiting()[seq],
            ),
            r@.len() == old(self).waiting().dom().len(),
            forall|seq: u64| #[trigger]
                old(self).waiting().contains_key(seq) ==> r@.contains(old(self).waiting()[seq]),
    {
        let ghost m = self.map@;
        let keys = sorted_keys(&self.map);
        let mut out: Vec<T> = Vec::new();
        let mut i: usize = 0;
        while i < keys.len()
            invariant
                i <= keys@.len(),
                lists(keys@, m.dom()),
                self.map@ == m.remove_keys(keys@.take(i as int).to_set()),
                out@ == keys@.take(i as int).map_values(|seq: u64| m[seq]),
            decreases keys@.len() - i,
        {
            proof {
                assert(keys@.to_set().contains(keys@[i as int]));
                assert(!keys@.take(i as int).to_set().contains(keys@[i as int])) by {
                    if keys@.take(i as int).contains(keys@[i as int]) {
                        let j = choose|j: int|
                            0 <= j < i && keys@.take(i as int)[j] == keys@[i as int];
                        assert(keys@[j] < keys@[i as int]);
                    }
                }
            }
            match self.map.remove(&keys[i]) {
                Some(tx) => {
                    out.push(tx);
                },
                None => {},
            }
            proof {
                let t0 = keys@.take(i as int);
                let t1 = keys@.take(i + 1);
                assert(t1 =~= t0.push(keys@[i as int]));
                crate::ackstore::live::push_contains(t0, keys@[i as int]);
                assert(self.map@ =~= m.remove_keys(t1.to_set()));
                assert(out@ =~= t1.map_values(|seq: u64| m[seq]));
            }
            i = i + 1;
        }
        proof {
            assert(keys@.take(i as int) =~= keys@);
            assert(lists(listing(m.dom()), m.dom()));
            listing_is_unique(keys@, listing(m.dom()));
            assert(self.map@ =~= Map::<u64, T>::empty());
            assert forall|seq: u64| #[trigger] m.contains_key(seq) implies out@.contains(m[seq]) by {
                assert(keys@.to_set().contains(seq));
                let j = choose|j: int| 0 <= j < keys@.len() && keys@[j] == seq;
                assert(out@[j] == m[seq]);
            }
        }
        out
    }

    /// How many requests are outstanding.
    pub fn len(&self) -> (r: usize)
        ensures
            r == self.waiting().dom().len(),
    {
        self.map.len()
    }
}

} // verus!
