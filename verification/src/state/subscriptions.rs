//! Routing registry: subscription id to route, plus the consumer that each
//! subscription hangs off.
//!
//! Deliveries are keyed by subscription, because several filtered
//! subscriptions may share one consumer. Removal cascades downward: dropping a
//! consumer drops its subscriptions and their routes; dropping the last
//! subscription of a consumer drops the consumer.
//!
//! A subscription's channel is known here by a number; the owner of the
//! channels is told which ones have lost their subscription.

use crate::ackstore::format::sub_vec;
use crate::ordered::{
    ascending32, listing32, listing32_exists, listing32_of, lists32, sorted_keys32,
};
use crate::state::matcher::{filter_accepts, Matcher};
use std::collections::BTreeMap;
use vstd::prelude::*;

verus! {

broadcast use vstd::laws_cmp::group_laws_cmp;

/// Delivery-channel capacity, per subscription.
pub const CHANNEL_CAP: usize = 4096;

/// One subscription. Lives inside its consumer and nowhere else.
#[derive(Debug)]
pub struct Subscription {
    pub id: u32,
    pub matcher: Matcher,
    /// Encoded subscribe request, sent again on reconnect.
    pub frame: Vec<u8>,
    pub channel: u64,
}

/// One consumer and every subscription on it.
#[derive(Debug)]
pub struct Consumer {
    pub stream_id: u32,
    pub fanout: bool,
    /// Delivered-set slot, shared by every subscription here and consulted
    /// once per message.
    pub dedup: Option<u32>,
    pub subs: Vec<Subscription>,
}

/// What one wire entry resolves to.
#[derive(Debug, Clone, Copy, PartialEq, Eq, Structural)]
pub struct Route {
    pub consumer_id: u32,
    pub stream_id: u32,
    pub fanout: bool,
    pub idx: usize,
    pub dedup: Option<u32>,
}

/// One delivery destination.
#[derive(Debug, Clone, Copy, PartialEq, Eq, Structural)]
pub struct Target {
    pub sub_id: u32,
    pub channel: u64,
}

/// What a delivery resolves to.
#[derive(Debug)]
pub struct Delivery {
    pub stream_id: u32,
    pub dedup: Option<u32>,
    pub targets: Vec<Target>,
}

/// What a caller supplies to open a subscription.
#[derive(Debug)]
pub struct Registration {
    pub consumer_id: u32,
    pub stream_id: u32,
    pub fanout: bool,
    pub dedup: Option<u32>,
    pub sub_id: u32,
    pub filter: Vec<u8>,
    pub frame: Vec<u8>,
    pub channel: u64,
}

/// A list of subscriptions holds one with this id.
pub open spec fn has_sub(subs: Seq<Subscription>, id: u32) -> bool {
    exists|i: int| 0 <= i < subs.len() && (#[trigger] subs[i]).id == id
}

pub open spec fn distinct_ids(subs: Seq<Subscription>) -> bool {
    forall|i: int, j: int|
        #![trigger subs[i], subs[j]]
        0 <= i < j < subs.len() ==> subs[i].id != subs[j].id
}

/// The ids of a list of subscriptions.
pub open spec fn sub_ids(subs: Seq<Subscription>) -> Set<u32> {
    Set::new(|id: u32| has_sub(subs, id))
}

/// The route to subscription number `i` of a consumer.
pub open spec fn route_to(consumer_id: u32, c: Consumer, i: int) -> Route {
    Route {
        consumer_id,
        stream_id: c.stream_id,
        fanout: c.fanout,
        idx: i as usize,
        dedup: c.dedup,
    }
}

/// A subscription as its registration describes it.
pub open spec fn opened(s: Subscription, reg: Registration) -> bool {
    &&& s.id == reg.sub_id
    &&& s.frame@ == reg.frame@
    &&& s.channel == reg.channel
    &&& forall|subject: Seq<u8>| #[trigger]
        s.matcher.lets(subject) == filter_accepts(reg.filter@, subject)
}

/// Everything in a list but the subscription with this id.
pub open spec fn without(subs: Seq<Subscription>, id: u32) -> Seq<Subscription> {
    subs.filter(|s: Subscription| s.id != id)
}

/// The targets of a fanout: whoever's filter accepts the subject, in order.
pub open spec fn fanout_targets(subs: Seq<Subscription>, subject: Seq<u8>) -> Seq<Target>
    decreases subs.len(),
{
    if subs.len() == 0 {
        Seq::empty()
    } else {
        let before = fanout_targets(subs.drop_last(), subject);
        let s = subs.last();
        if s.matcher.lets(subject) {
            before.push(Target { sub_id: s.id, channel: s.channel })
        } else {
            before
        }
    }
}

/// The routing table.
pub struct Subscriptions {
    pub by_sub: BTreeMap<u32, Route>,
    pub by_consumer: BTreeMap<u32, Consumer>,
}

impl Subscriptions {
    /// The subscriptions of a consumer, none where it is unknown.
    pub open spec fn subs_of(&self, consumer_id: u32) -> Seq<Subscription> {
        if self.by_consumer@.contains_key(consumer_id) {
            self.by_consumer@[consumer_id].subs@
        } else {
            Seq::empty()
        }
    }

    /// The route of a subscription leads to that subscription.
    pub open spec fn route_ok(&self, id: u32) -> bool {
        let r = self.by_sub@[id];
        let c = self.by_consumer@[r.consumer_id];
        &&& self.by_consumer@.contains_key(r.consumer_id)
        &&& (r.idx as int) < c.subs@.len()
        &&& c.subs@[r.idx as int].id == id
        &&& r == route_to(r.consumer_id, c, r.idx as int)
    }

    /// The two tables agree: no route outlives its subscription, every
    /// subscription has its route, and no consumer outlives its last
    /// subscription.
    pub open spec fn wf(&self) -> bool {
        &&& self.linked()
        &&& forall|id: u32| #[trigger] self.by_sub@.contains_key(id) ==> self.route_ok(id)
        &&& forall|c: u32| #[trigger]
            self.by_consumer@.contains_key(c) ==> {
                &&& distinct_ids(self.by_consumer@[c].subs@)
                &&& self.by_consumer@[c].subs@.len() > 0
            }
    }

    /// Every subscription has its route.
    pub open spec fn linked(&self) -> bool {
        forall|c: u32, i: int|
            #![trigger self.by_consumer@[c].subs@[i]]
            self.by_consumer@.contains_key(c) && 0 <= i < self.by_consumer@[c].subs@.len() ==> {
                let id = self.by_consumer@[c].subs@[i].id;
                self.by_sub@.contains_key(id) && self.by_sub@[id].consumer_id == c
                    && self.by_sub@[id].idx == i
            }
    }

    pub fn new() -> (r: Subscriptions)
        ensures
            r.wf(),
            r.by_sub@ == Map::<u32, Route>::empty(),
            r.by_consumer@ == Map::<u32, Consumer>::empty(),
    {
        Subscriptions { by_sub: BTreeMap::new(), by_consumer: BTreeMap::new() }
    }

    /// Take a consumer out, with every route under it.
    fn detach(&mut self, consumer_id: u32) -> (r: Option<Consumer>)
        requires
            old(self).wf(),
        ensures
            final(self).wf(),
            final(self).by_consumer@ == old(self).by_consumer@.remove(consumer_id),
            final(self).by_sub@ == old(self).by_sub@.remove_keys(
                sub_ids(old(self).subs_of(consumer_id)),
            ),
            match r {
                Some(c) => {
                    &&& old(self).by_consumer@.contains_key(consumer_id)
                    &&& c == old(self).by_consumer@[consumer_id]
                },
                None => !old(self).by_consumer@.contains_key(consumer_id),
            },
    {
        let ghost s0 = *self;
        let c = match self.by_consumer.remove(&consumer_id) {
            Some(c) => c,
            None => {
                proof {
                    assert(sub_ids(Seq::<Subscription>::empty()) =~= Set::empty());
                    assert(self.by_sub@ =~= s0.by_sub@.remove_keys(
                        sub_ids(s0.subs_of(consumer_id)),
                    ));
                    assert(self.by_consumer@ =~= s0.by_consumer@);
                    assert forall|id: u32| #[trigger]
                        self.by_sub@.contains_key(id) implies self.route_ok(id) by {
                        assert(s0.route_ok(id));
                    }
                    assert(self.linked());
                }
                return None;
            },
        };
        let mut i: usize = 0;
        assert(sub_ids(c.subs@.take(0)) =~= Set::empty());
        assert(s0.by_sub@.remove_keys(Set::<u32>::empty()) =~= s0.by_sub@);
        while i < c.subs.len()
            invariant
                i <= c.subs@.len(),
                self.by_consumer@ == s0.by_consumer@.remove(consumer_id),
                self.by_sub@ == s0.by_sub@.remove_keys(sub_ids(c.subs@.take(i as int))),
            decreases c.subs@.len() - i,
        {
            self.by_sub.remove(&c.subs[i].id);
            proof {
                let a = c.subs@.take(i as int);
                let b = c.subs@.take(i + 1);
                assert(sub_ids(b) =~= sub_ids(a).insert(c.subs@[i as int].id)) by {
                    assert forall|id: u32| has_sub(b, id) == (has_sub(a, id) || id
                        == c.subs@[i as int].id) by {
                        if has_sub(a, id) {
                            let j = choose|j: int| 0 <= j < a.len() && (#[trigger] a[j]).id == id;
                            assert(b[j].id == id);
                        }
                        assert(b[i as int].id == c.subs@[i as int].id);
                        if has_sub(b, id) {
                            let j = choose|j: int| 0 <= j < b.len() && (#[trigger] b[j]).id == id;
                            if j < i {
                                assert(a[j].id == id);
                            }
                        }
                    }
                }
                assert(self.by_sub@ =~= s0.by_sub@.remove_keys(sub_ids(b)));
            }
            i = i + 1;
        }
        proof {
            assert(c.subs@.take(i as int) =~= c.subs@);
            assert forall|id: u32| #[trigger] self.by_sub@.contains_key(id) implies self.route_ok(
                id,
            ) by {
                assert(s0.by_sub@.contains_key(id));
                assert(s0.route_ok(id));
                let r = s0.by_sub@[id];
                if r.consumer_id == consumer_id {
                    assert(c.subs@[r.idx as int].id == id);
                    assert(has_sub(c.subs@, id));
                }
            }
            assert forall|k: u32| #[trigger] self.by_consumer@.contains_key(k) implies distinct_ids(
                self.by_consumer@[k].subs@,
            ) && self.by_consumer@[k].subs@.len() > 0 by {
                assert(s0.by_consumer@.contains_key(k));
            }
            if s0.linked() {
                assert forall|k: u32, j: int|
                    #![trigger self.by_consumer@[k].subs@[j]]
                    self.by_consumer@.contains_key(k) && 0 <= j
                        < self.by_consumer@[k].subs@.len() implies {
                    let id = self.by_consumer@[k].subs@[j].id;
                    self.by_sub@.contains_key(id) && self.by_sub@[id].consumer_id == k
                        && self.by_sub@[id].idx == j
                } by {
                    let id = s0.by_consumer@[k].subs@[j].id;
                    assert(s0.by_sub@.contains_key(id) && s0.by_sub@[id].consumer_id == k);
                    if has_sub(c.subs@, id) {
                        let m = choose|m: int|
                            0 <= m < c.subs@.len() && (#[trigger] c.subs@[m]).id == id;
                        assert(s0.by_consumer@[consumer_id].subs@[m].id == id);
                        assert(s0.by_sub@[id].consumer_id == consumer_id);
                    }
                }
            }
        }
        Some(c)
    }

    /// Put a consumer in and point a route at each of its subscriptions.
    fn attach(&mut self, consumer_id: u32, c: Consumer)
        requires
            old(self).wf(),
            !old(self).by_consumer@.contains_key(consumer_id),
            distinct_ids(c.subs@),
            c.subs@.len() > 0,
            forall|i: int|
                0 <= i < c.subs@.len() ==> !old(self).by_sub@.contains_key(
                    (#[trigger] c.subs@[i]).id,
                ),
        ensures
            final(self).wf(),
            final(self).by_consumer@ == old(self).by_consumer@.insert(consumer_id, c),
            forall|id: u32| #[trigger]
                final(self).by_sub@.contains_key(id) == (old(self).by_sub@.contains_key(id)
                    || has_sub(c.subs@, id)),
            forall|i: int|
                0 <= i < c.subs@.len() ==> final(self).by_sub@[(#[trigger] c.subs@[i]).id]
                    == route_to(consumer_id, c, i),
            forall|id: u32|
                !has_sub(c.subs@, id) && old(self).by_sub@.contains_key(id)
                    ==> #[trigger] final(self).by_sub@[id] == old(self).by_sub@[id],
    {
        let ghost s0 = *self;
        let mut i: usize = 0;
        while i < c.subs.len()
            invariant
                i <= c.subs@.len(),
                distinct_ids(c.subs@),
                self.by_consumer@ == s0.by_consumer@,
                forall|id: u32| #[trigger]
                    self.by_sub@.contains_key(id) == (s0.by_sub@.contains_key(id) || has_sub(
                        c.subs@.take(i as int),
                        id,
                    )),
                forall|j: int|
                    0 <= j < i ==> self.by_sub@[(#[trigger] c.subs@[j]).id] == route_to(
                        consumer_id,
                        c,
                        j,
                    ),
                forall|id: u32|
                    !has_sub(c.subs@.take(i as int), id) && s0.by_sub@.contains_key(id)
                        ==> #[trigger] self.by_sub@[id] == s0.by_sub@[id],
            decreases c.subs@.len() - i,
        {
            let id: u32 = c.subs[i].id;
            let ghost m0 = self.by_sub@;
            self.by_sub.insert(
                id,
                Route {
                    consumer_id,
                    stream_id: c.stream_id,
                    fanout: c.fanout,
                    idx: i,
                    dedup: c.dedup,
                },
            );
            proof {
                let a = c.subs@.take(i as int);
                let b = c.subs@.take(i + 1);
                assert forall|k: u32| has_sub(b, k) == (has_sub(a, k) || k == id) by {
                    if has_sub(a, k) {
                        let j = choose|j: int| 0 <= j < a.len() && (#[trigger] a[j]).id == k;
                        assert(b[j].id == k);
                    }
                    assert(b[i as int].id == id);
                    if has_sub(b, k) {
                        let j = choose|j: int| 0 <= j < b.len() && (#[trigger] b[j]).id == k;
                        if j < i {
                            assert(a[j].id == k);
                        }
                    }
                }
                assert forall|j: int| 0 <= j < i + 1 implies self.by_sub@[(#[trigger]
                c.subs@[j]).id] == route_to(consumer_id, c, j) by {
                    if j < i {
                        assert(c.subs@[j].id != c.subs@[i as int].id);
                    }
                }
            }
            i = i + 1;
        }
        assert(c.subs@.take(i as int) =~= c.subs@);
        self.by_consumer.insert(consumer_id, c);
        proof {
            assert forall|id: u32| #[trigger] self.by_sub@.contains_key(id) implies self.route_ok(
                id,
            ) by {
                if has_sub(c.subs@, id) {
                    let j = choose|j: int| 0 <= j < c.subs@.len() && (#[trigger] c.subs@[j]).id
                        == id;
                    assert(self.by_sub@[c.subs@[j].id] == route_to(consumer_id, c, j));
                } else {
                    assert(s0.route_ok(id));
                    assert(self.by_sub@[id] == s0.by_sub@[id]);
                }
            }
            if s0.linked() && (forall|j: int|
                0 <= j < c.subs@.len() ==> !s0.by_sub@.contains_key((#[trigger] c.subs@[j]).id)) {
                assert forall|k: u32, j: int|
                    #![trigger self.by_consumer@[k].subs@[j]]
                    self.by_consumer@.contains_key(k) && 0 <= j
                        < self.by_consumer@[k].subs@.len() implies {
                    let id = self.by_consumer@[k].subs@[j].id;
                    self.by_sub@.contains_key(id) && self.by_sub@[id].consumer_id == k
                        && self.by_sub@[id].idx == j
                } by {
                    if k == consumer_id {
                        let id = c.subs@[j].id;
                        assert(has_sub(c.subs@, id));
                    } else {
                        let id = s0.by_consumer@[k].subs@[j].id;
                        assert(s0.by_sub@.contains_key(id));
                        assert(!has_sub(c.subs@, id)) by {
                            if has_sub(c.subs@, id) {
                                let m = choose|m: int|
                                    0 <= m < c.subs@.len() && (#[trigger] c.subs@[m]).id == id;
                                assert(!s0.by_sub@.contains_key(c.subs@[m].id));
                            }
                        }
                        assert(self.by_sub@[id] == s0.by_sub@[id]);
                    }
                }
            }
        }
    }
}

/// The channels of a list of subscriptions.
pub open spec fn channels(subs: Seq<Subscription>) -> Seq<u64> {
    subs.map_values(|s: Subscription| s.channel)
}

/// The subscriptions of a list with this id.
pub open spec fn only(subs: Seq<Subscription>, id: u32) -> Seq<Subscription> {
    subs.filter(|s: Subscription| s.id == id)
}

/// Take the subscriptions with this id out of a list; returns their channels.
fn drop_sub(subs: &mut Vec<Subscription>, id: u32) -> (dropped: Vec<u64>)
    ensures
        final(subs)@ == without(old(subs)@, id),
        dropped@ == channels(only(old(subs)@, id)),
{
    let ghost all = subs@;
    let ghost keep = |s: Subscription| s.id != id;
    let ghost gone = |s: Subscription| s.id == id;
    let ghost mut k: int = 0;
    let mut dropped: Vec<u64> = Vec::new();
    let mut i: usize = 0;
    proof {
        reveal(Seq::filter);
        assert(all.take(0).filter(keep) =~= Seq::empty());
        assert(all.take(0).filter(gone) =~= Seq::empty());
        assert(subs@ =~= all.take(0).filter(keep) + all.skip(0));
        assert(dropped@ =~= channels(all.take(0).filter(gone)));
    }
    while i < subs.len()
        invariant
            0 <= k <= all.len(),
            keep == (|s: Subscription| s.id != id),
            gone == (|s: Subscription| s.id == id),
            i == all.take(k).filter(keep).len(),
            subs@ == all.take(k).filter(keep) + all.skip(k),
            dropped@ == channels(all.take(k).filter(gone)),
        decreases all.len() - k,
    {
        proof {
            assert(k < all.len());
            assert(subs@[i as int] == all[k]);
            assert(all.take(k + 1).drop_last() =~= all.take(k));
            reveal(Seq::filter);
        }
        if subs[i].id == id {
            let s = subs.remove(i);
            dropped.push(s.channel);
            proof {
                assert(subs@ =~= all.take(k + 1).filter(keep) + all.skip(k + 1));
                assert(dropped@ =~= channels(all.take(k + 1).filter(gone)));
            }
        } else {
            i = i + 1;
            assert(subs@ =~= all.take(k + 1).filter(keep) + all.skip(k + 1));
        }
        proof {
            k = k + 1;
        }
    }
    proof {
        assert(all.skip(k) =~= Seq::empty());
        assert(all.take(k) =~= all);
        assert(subs@ =~= without(all, id));
    }
    dropped
}

proof fn without_facts(subs: Seq<Subscription>, id: u32)
    ensures
        !has_sub(without(subs, id), id),
        forall|k: u32| k != id ==> #[trigger] has_sub(without(subs, id), k) == has_sub(subs, k),
        distinct_ids(subs) ==> distinct_ids(without(subs, id)),
    decreases subs.len(),
{
    let keep = |s: Subscription| s.id != id;
    reveal(Seq::filter);
    if subs.len() > 0 {
        let t = subs.drop_last();
        let last = subs.last();
        without_facts(t, id);
        let w0 = without(t, id);
        let w = without(subs, id);
        if last.id != id {
            assert(w == w0.push(last));
        } else {
            assert(w == w0);
        }
        assert forall|k: u32| has_sub(subs, k) == (has_sub(t, k) || k == last.id) by {
            if has_sub(t, k) {
                let j = choose|j: int| 0 <= j < t.len() && (#[trigger] t[j]).id == k;
                assert(subs[j].id == k);
            }
            assert(subs[subs.len() - 1].id == last.id);
            if has_sub(subs, k) {
                let j = choose|j: int| 0 <= j < subs.len() && (#[trigger] subs[j]).id == k;
                if j < t.len() {
                    assert(t[j].id == k);
                }
            }
        }
        if last.id != id {
            assert forall|k: u32| has_sub(w, k) == (has_sub(w0, k) || k == last.id) by {
                if has_sub(w0, k) {
                    let j = choose|j: int| 0 <= j < w0.len() && (#[trigger] w0[j]).id == k;
                    assert(w[j].id == k);
                }
                assert(w[w0.len() as int].id == last.id);
                if has_sub(w, k) {
                    let j = choose|j: int| 0 <= j < w.len() && (#[trigger] w[j]).id == k;
                    if j < w0.len() {
                        assert(w0[j].id == k);
                    }
                }
            }
        }
        if distinct_ids(subs) {
            assert(distinct_ids(t));
            if last.id != id {
                assert(!has_sub(t, last.id)) by {
                    if has_sub(t, last.id) {
                        let j = choose|j: int| 0 <= j < t.len() && (#[trigger] t[j]).id == last.id;
                        assert(subs[j].id != subs[subs.len() - 1].id);
                    }
                }
                assert(!has_sub(w0, last.id));
                assert forall|a: int, b: int|
                    #![trigger w[a], w[b]]
                    0 <= a < b < w.len() implies w[a].id != w[b].id by {
                    if b == w0.len() {
                        assert(w0[a].id == w[a].id);
                        if w[a].id == last.id {
                            assert(has_sub(w0, last.id));
                        }
                    } else {
                        assert(w0[a] == w[a] && w0[b] == w[b]);
                    }
                }
            }
        }
    }
}

/// The routes after a consumer's subscriptions were replaced: its old routes
/// are gone, the new ones stand, everything else is as it was.
pub open spec fn rerouted(s0: Subscriptions, consumer_id: u32, s1: Subscriptions) -> bool {
    let subs = s1.subs_of(consumer_id);
    let stale = s0.subs_of(consumer_id);
    &&& forall|id: u32| #[trigger]
        s1.by_sub@.contains_key(id) == (has_sub(subs, id) || (s0.by_sub@.contains_key(id)
            && !has_sub(stale, id)))
    &&& forall|i: int|
        0 <= i < subs.len() ==> s1.by_sub@[(#[trigger] subs[i]).id] == route_to(
            consumer_id,
            s1.by_consumer@[consumer_id],
            i,
        )
    &&& forall|id: u32|
        !has_sub(subs, id) && s1.by_sub@.contains_key(id) ==> #[trigger] s1.by_sub@[id]
            == s0.by_sub@[id]
}

/// What retiring subscription `sub_id` makes of the tables: its siblings keep
/// running, and the consumer goes only with its last subscription.
pub open spec fn removed(
    s0: Subscriptions,
    sub_id: u32,
    s1: Subscriptions,
    dropped: Seq<u64>,
) -> bool {
    if !s0.by_sub@.contains_key(sub_id) {
        &&& dropped.len() == 0
        &&& s1.by_sub@ == s0.by_sub@
        &&& s1.by_consumer@ == s0.by_consumer@
    } else {
        let cid = s0.by_sub@[sub_id].consumer_id;
        let c0 = s0.by_consumer@[cid];
        let kept = without(c0.subs@, sub_id);
        &&& dropped == channels(only(c0.subs@, sub_id))
        &&& !s1.by_sub@.contains_key(sub_id)
        &&& rerouted(s0, cid, s1)
        &&& if kept.len() == 0 {
            s1.by_consumer@ == s0.by_consumer@.remove(cid)
        } else {
            let c = s1.by_consumer@[cid];
            &&& s1.by_consumer@ == s0.by_consumer@.insert(cid, c)
            &&& c.subs@ == kept
            &&& c.stream_id == c0.stream_id
            &&& c.fanout == c0.fanout
            &&& c.dedup == c0.dedup
        }
    }
}

/// What is left of consumer `k` without subscription `sub_id`: the others, in
/// order, and the consumer itself only where there are any.
pub open spec fn bereft(s0: Subscriptions, sub_id: u32, k: u32, s1: Subscriptions) -> bool {
    let kept = without(s0.subs_of(k), sub_id);
    &&& s1.by_consumer@.contains_key(k) == (kept.len() > 0)
    &&& s1.subs_of(k) == kept
    &&& kept.len() > 0 ==> {
        &&& s1.by_consumer@[k].stream_id == s0.by_consumer@[k].stream_id
        &&& s1.by_consumer@[k].fanout == s0.by_consumer@[k].fanout
        &&& s1.by_consumer@[k].dedup == s0.by_consumer@[k].dedup
    }
}

/// Nothing is taken out of a list that does not hold it.
proof fn without_absent(subs: Seq<Subscription>, id: u32)
    requires
        !has_sub(subs, id),
    ensures
        without(subs, id) == subs,
    decreases subs.len(),
{
    reveal(Seq::filter);
    if subs.len() > 0 {
        let t = subs.drop_last();
        assert(!has_sub(t, id)) by {
            if has_sub(t, id) {
                let j = choose|j: int| 0 <= j < t.len() && (#[trigger] t[j]).id == id;
                assert(subs[j].id == id);
            }
        }
        without_absent(t, id);
        assert(subs[subs.len() - 1].id != id);
        assert(without(subs, id) =~= t.push(subs.last()));
    }
    assert(without(subs, id) =~= subs);
}

/// Retiring a subscription leaves every consumer without it.
proof fn removal_bereaves(
    s0: Subscriptions,
    sub_id: u32,
    s1: Subscriptions,
    dropped: Seq<u64>,
    k: u32,
)
    requires
        s0.wf(),
        removed(s0, sub_id, s1, dropped),
    ensures
        bereft(s0, sub_id, k, s1),
{
    let subs = s0.subs_of(k);
    let owned = s0.by_sub@.contains_key(sub_id) && s0.by_sub@[sub_id].consumer_id == k;
    if s0.by_consumer@.contains_key(k) {
        assert(subs.len() > 0);
    }
    let kept = without(subs, sub_id);
    if kept.len() == 0 {
        assert(kept =~= Seq::empty());
    }
    if owned {
        assert(s0.route_ok(sub_id));
        assert(s1.subs_of(k) =~= kept);
    } else {
        assert(!has_sub(subs, sub_id)) by {
            if has_sub(subs, sub_id) {
                let j = choose|j: int| 0 <= j < subs.len() && (#[trigger] subs[j]).id == sub_id;
                assert(s0.by_consumer@[k].subs@[j].id == sub_id);
            }
        }
        without_absent(subs, sub_id);
        assert(s1.by_consumer@.contains_key(k) == s0.by_consumer@.contains_key(k));
        assert(s1.subs_of(k) =~= kept);
    }
}

impl Subscriptions {
    /// Resolve one wire entry.
    ///
    /// In queue mode there is one destination: the broker has picked the
    /// subscription. In fanout every subscription of the consumer whose filter
    /// accepts the subject gets the message. `None` for an unknown
    /// subscription: a delivery that came after the handle was dropped.
    pub fn route(&self, sub_id: u32, subject: &[u8]) -> (r: Option<Delivery>)
        requires
            self.wf(),
        ensures
            match r {
                Some(d) => {
                    let route = self.by_sub@[sub_id];
                    let subs = self.subs_of(route.consumer_id);
                    &&& self.by_sub@.contains_key(sub_id)
                    &&& d.stream_id == route.stream_id
                    &&& d.dedup == route.dedup
                    &&& d.targets@ == if route.fanout {
                        fanout_targets(subs, subject@)
                    } else {
                        seq![Target { sub_id, channel: subs[route.idx as int].channel }]
                    }
                },
                None => !self.by_sub@.contains_key(sub_id),
            },
            forall|c: u32, sub: Subscription| #[trigger]
                holds(*self, c, sub) && sub.id == sub_id ==> {
                    let k = self.by_consumer@[c];
                    &&& r is Some
                    &&& r->0.stream_id == k.stream_id
                    &&& r->0.dedup == k.dedup
                    &&& !k.fanout ==> r->0.targets@ == seq![
                        Target { sub_id, channel: sub.channel },
                    ]
                    &&& k.fanout ==> forall|i: int|
                        0 <= i < k.subs@.len() && (#[trigger] k.subs@[i]).matcher.lets(subject@)
                            ==> r->0.targets@.contains(
                            Target { sub_id: k.subs@[i].id, channel: k.subs@[i].channel },
                        )
                },
    {
        let route: Route = match self.by_sub.get(&sub_id) {
            Some(route) => *route,
            None => {
                return None;
            },
        };
        assert(self.by_sub@.contains_key(sub_id) && self.route_ok(sub_id));
        let c = self.by_consumer.get(&route.consumer_id).unwrap();
        let mut targets: Vec<Target> = Vec::new();
        if route.fanout {
            let mut i: usize = 0;
            assert(c.subs@.take(0) =~= Seq::empty());
            while i < c.subs.len()
                invariant
                    i <= c.subs@.len(),
                    targets@ == fanout_targets(c.subs@.take(i as int), subject@),
                decreases c.subs@.len() - i,
            {
                proof {
                    assert(c.subs@.take(i + 1).drop_last() =~= c.subs@.take(i as int));
                }
                if c.subs[i].matcher.accepts(subject) {
                    targets.push(Target { sub_id: c.subs[i].id, channel: c.subs[i].channel });
                }
                i = i + 1;
            }
            assert(c.subs@.take(i as int) =~= c.subs@);
        } else {
            targets.push(
                Target { sub_id: c.subs[route.idx].id, channel: c.subs[route.idx].channel },
            );
            assert(targets@ =~= seq![
                Target { sub_id, channel: c.subs@[route.idx as int].channel },
            ]);
        }
        proof {
            assert forall|k: u32, sub: Subscription| #[trigger]
                holds(*self, k, sub) && sub.id == sub_id implies k == route.consumer_id
                && sub.channel == c.subs@[route.idx as int].channel by {
                let l = self.by_consumer@[k].subs@;
                let j = choose|j: int| 0 <= j < l.len() && l[j] == sub;
                assert(self.by_consumer@[k].subs@[j].id == sub_id);
            }
            assert forall|i: int|
                0 <= i < c.subs@.len() && (#[trigger] c.subs@[i]).matcher.lets(
                    subject@,
                ) implies fanout_targets(c.subs@, subject@).contains(
                Target { sub_id: c.subs@[i].id, channel: c.subs@[i].channel },
            ) by {
                fanout_reaches_whoever_accepts(
                    c.subs@,
                    subject@,
                    Target { sub_id: c.subs@[i].id, channel: c.subs@[i].channel },
                );
            }
        }
        Some(Delivery { stream_id: route.stream_id, dedup: route.dedup, targets })
    }

    /// Open a subscription. One with the same id, on this consumer or another,
    /// is replaced: its channel is returned, and a consumer that it leaves
    /// without subscriptions goes. Consumer-level settings come from the newest
    /// registration.
    pub fn register(&mut self, reg: Registration) -> (dropped: Vec<u64>)
        requires
            old(self).wf(),
        ensures
            final(self).wf(),
            ({
                let cid = reg.consumer_id;
                let c = final(self).by_consumer@[cid];
                let kept = without(old(self).subs_of(cid), reg.sub_id);
                &&& final(self).by_consumer@.contains_key(cid)
                &&& c.stream_id == reg.stream_id
                &&& c.fanout == reg.fanout
                &&& c.dedup == reg.dedup
                &&& c.subs@.len() == kept.len() + 1
                &&& c.subs@.drop_last() == kept
                &&& opened(c.subs@.last(), reg)
            }),
            final(self).by_sub@.contains_key(reg.sub_id),
            ({
                let r = final(self).by_sub@[reg.sub_id];
                let s = final(self).by_consumer@[reg.consumer_id].subs@[r.idx as int];
                &&& r.consumer_id == reg.consumer_id
                &&& r.stream_id == reg.stream_id
                &&& r.fanout == reg.fanout
                &&& r.dedup == reg.dedup
                &&& s.id == reg.sub_id
                &&& s.frame@ == reg.frame@
                &&& s.channel == reg.channel
                &&& forall|subject: Seq<u8>| #[trigger]
                    s.matcher.lets(subject) == filter_accepts(reg.filter@, subject)
            }),
            forall|c: u32, sub: Subscription|
                sub.id != reg.sub_id ==> (#[trigger] holds(*final(self), c, sub) <==> holds(
                    *old(self),
                    c,
                    sub,
                )),
            forall|k: u32|
                k != reg.consumer_id ==> #[trigger] bereft(*old(self), reg.sub_id, k, *final(self)),
            dropped@ == if old(self).by_sub@.contains_key(reg.sub_id) {
                channels(
                    only(
                        old(self).subs_of(old(self).by_sub@[reg.sub_id].consumer_id),
                        reg.sub_id,
                    ),
                )
            } else {
                Seq::empty()
            },
            dropped@.len() == if old(self).by_sub@.contains_key(reg.sub_id) {
                1nat
            } else {
                0
            },
            forall|c: u32, sub: Subscription| #[trigger]
                holds(*old(self), c, sub) && sub.id == reg.sub_id ==> dropped@[0] == sub.channel,
    {
        let ghost s0 = *self;
        let cid: u32 = reg.consumer_id;
        let sub_id: u32 = reg.sub_id;
        let fresh = Subscription {
            id: sub_id,
            matcher: Matcher::new(reg.filter.as_slice()),
            frame: reg.frame,
            channel: reg.channel,
        };
        let dropped = self.remove(sub_id);
        let ghost s1 = *self;
        proof {
            siblings_keep_running(s0, sub_id, s1, dropped@);
            assert forall|k: u32| #[trigger] bereft(s0, sub_id, k, s1) by {
                removal_bereaves(s0, sub_id, s1, dropped@, k);
            }
            assert(bereft(s0, sub_id, cid, s1));
            assert(dropped@ =~= if s0.by_sub@.contains_key(sub_id) {
                channels(only(s0.subs_of(s0.by_sub@[sub_id].consumer_id), sub_id))
            } else {
                Seq::empty()
            });
        }
        let ghost kept = self.subs_of(cid);
        let mut subs: Vec<Subscription> = match self.detach(cid) {
            Some(c) => c.subs,
            None => Vec::new(),
        };
        assert(subs@ =~= kept);
        let ghost s2 = *self;
        subs.push(fresh);
        proof {
            assert(subs@.drop_last() =~= kept);
            assert(!s1.by_sub@.contains_key(sub_id));
            assert(!has_sub(kept, sub_id)) by {
                if has_sub(kept, sub_id) {
                    let j = choose|j: int| 0 <= j < kept.len() && (#[trigger] kept[j]).id == sub_id;
                    assert(s1.by_consumer@[cid].subs@[j].id == sub_id);
                }
            }
            push_sub_facts(kept, subs@.last());
            assert(distinct_ids(kept)) by {
                if s1.by_consumer@.contains_key(cid) {
                    assert(distinct_ids(s1.by_consumer@[cid].subs@));
                }
            }
            assert forall|i: int| 0 <= i < subs@.len() implies !s2.by_sub@.contains_key(
                (#[trigger] subs@[i]).id,
            ) by {
                if i < kept.len() {
                    assert(has_sub(kept, kept[i].id));
                }
            }
        }
        let c = Consumer { stream_id: reg.stream_id, fanout: reg.fanout, dedup: reg.dedup, subs };
        let ghost cg = c;
        self.attach(cid, c);
        proof {
            assert forall|k: u32| k != cid implies #[trigger] bereft(s0, sub_id, k, *self) by {
                assert(bereft(s0, sub_id, k, s1));
            }
            assert(self.by_consumer@[cid].subs@[kept.len() as int].id == sub_id);
            assert(self.route_ok(sub_id));
            assert forall|c: u32, sub: Subscription| sub.id != sub_id implies (#[trigger] holds(
                *self,
                c,
                sub,
            ) <==> holds(s0, c, sub)) by {
                without_members(s0.subs_of(c), sub_id);
                if c == cid {
                    push_members(kept, cg.subs@.last());
                    assert(cg.subs@ =~= kept.push(cg.subs@.last()));
                    assert(self.by_consumer@[cid].subs@.contains(sub) <==> kept.contains(sub));
                    assert(kept.contains(sub) <==> s0.subs_of(c).contains(sub));
                } else {
                    assert(bereft(s0, sub_id, c, *self));
                    assert(self.subs_of(c).contains(sub) <==> s0.subs_of(c).contains(sub));
                }
            }
        }
        dropped
    }

    /// The subscriptions of a consumer are those whose routes name it.
    proof fn ids_by_route(&self, consumer_id: u32)
        requires
            self.wf(),
        ensures
            forall|id: u32| #[trigger]
                has_sub(self.subs_of(consumer_id), id) <==> self.by_sub@.contains_key(id)
                    && self.by_sub@[id].consumer_id == consumer_id,
    {
        let subs = self.subs_of(consumer_id);
        assert forall|id: u32| #[trigger] has_sub(subs, id) <==> self.by_sub@.contains_key(id)
            && self.by_sub@[id].consumer_id == consumer_id by {
            if has_sub(subs, id) {
                let i = choose|i: int| 0 <= i < subs.len() && (#[trigger] subs[i]).id == id;
                assert(self.by_consumer@[consumer_id].subs@[i].id == id);
            }
            if self.by_sub@.contains_key(id) && self.by_sub@[id].consumer_id == consumer_id {
                assert(self.route_ok(id));
                assert(subs[self.by_sub@[id].idx as int].id == id);
            }
        }
    }

    /// Set a consumer's delivery mode, which the broker reports only after the
    /// subscription is registered.
    pub fn set_fanout(&mut self, consumer_id: u32, fanout: bool)
        requires
            old(self).wf(),
        ensures
            final(self).wf(),
            !old(self).by_consumer@.contains_key(consumer_id) ==> {
                &&& final(self).by_consumer@ == old(self).by_consumer@
                &&& final(self).by_sub@ == old(self).by_sub@
            },
            old(self).by_consumer@.contains_key(consumer_id) ==> {
                let c0 = old(self).by_consumer@[consumer_id];
                let c = final(self).by_consumer@[consumer_id];
                &&& final(self).by_consumer@ == old(self).by_consumer@.insert(consumer_id, c)
                &&& c == (Consumer { fanout, ..c0 })
                &&& c0.fanout != fanout ==> rerouted(*old(self), consumer_id, *final(self))
                &&& c0.fanout == fanout ==> final(self).by_sub@ == old(self).by_sub@
            },
            final(self).by_sub@.dom() == old(self).by_sub@.dom(),
            forall|id: u32| #[trigger]
                old(self).by_sub@.contains_key(id) ==> {
                    let r = old(self).by_sub@[id];
                    final(self).by_sub@[id] == if r.consumer_id == consumer_id {
                        Route { fanout, ..r }
                    } else {
                        r
                    }
                },
    {
        match self.by_consumer.get(&consumer_id) {
            Some(c) => {
                if c.fanout == fanout {
                    proof {
                        let c0 = self.by_consumer@[consumer_id];
                        assert(c0 == (Consumer { fanout, ..c0 }));
                        assert(self.by_consumer@ =~= self.by_consumer@.insert(consumer_id, c0));
                    }
                    return ;
                }
            },
            None => {
                return ;
            },
        }
        let ghost s0 = *self;
        if let Some(c0) = self.detach(consumer_id) {
            let ghost s1 = *self;
            let mut c = c0;
            c.fanout = fanout;
            let ghost cg = c;
            self.attach(consumer_id, c);
            proof {
                assert(self.by_consumer@ =~= s0.by_consumer@.insert(consumer_id, cg));
                assert(self.subs_of(consumer_id) == s0.subs_of(consumer_id));
                assert forall|id: u32| #[trigger]
                    self.by_sub@.contains_key(id) == (has_sub(cg.subs@, id)
                        || (s0.by_sub@.contains_key(id) && !has_sub(cg.subs@, id))) by {
                    assert(s1.by_sub@.contains_key(id) == (s0.by_sub@.contains_key(id) && !has_sub(
                        cg.subs@,
                        id,
                    )));
                }
                assert forall|i: int| 0 <= i < cg.subs@.len() implies !s1.by_sub@.contains_key(
                    (#[trigger] cg.subs@[i]).id,
                ) by {
                    assert(has_sub(cg.subs@, cg.subs@[i].id));
                }
            }
        }
    }

    /// Retire one subscription. Siblings keep running; the consumer goes only
    /// with its last subscription. Returns the channels that lost theirs.
    pub fn remove(&mut self, sub_id: u32) -> (dropped: Vec<u64>)
        requires
            old(self).wf(),
        ensures
            final(self).wf(),
            removed(*old(self), sub_id, *final(self), dropped@),
    {
        let ghost s0 = *self;
        let cid: u32 = match self.by_sub.get(&sub_id) {
            Some(route) => route.consumer_id,
            None => {
                return Vec::new();
            },
        };
        assert(s0.by_sub@.contains_key(sub_id) && s0.route_ok(sub_id));
        let mut c = self.detach(cid).unwrap();
        let ghost s1 = *self;
        let ghost stale = c.subs@;
        let dropped = drop_sub(&mut c.subs, sub_id);
        let ghost kept = c.subs@;
        let ghost cg = c;
        proof {
            without_facts(stale, sub_id);
            assert(has_sub(stale, sub_id)) by {
                let r = s0.by_sub@[sub_id];
                assert(stale[r.idx as int].id == sub_id);
            }
            assert forall|id: u32|
                s1.by_sub@.contains_key(id) == (s0.by_sub@.contains_key(id) && !has_sub(
                    stale,
                    id,
                )) by {}
        }
        if c.subs.len() > 0 {
            proof {
                assert forall|i: int| 0 <= i < kept.len() implies !s1.by_sub@.contains_key(
                    (#[trigger] kept[i]).id,
                ) by {
                    assert(has_sub(kept, kept[i].id));
                    assert(has_sub(stale, kept[i].id));
                }
            }
            self.attach(cid, c);
            proof {
                assert(self.by_consumer@ =~= s0.by_consumer@.insert(cid, cg));
                assert forall|id: u32| #[trigger]
                    self.by_sub@.contains_key(id) == (has_sub(kept, id) || (s0.by_sub@.contains_key(
                        id,
                    ) && !has_sub(stale, id))) by {
                    assert(s1.by_sub@.contains_key(id) == (s0.by_sub@.contains_key(id) && !has_sub(
                        stale,
                        id,
                    )));
                }
            }
        } else {
            proof {
                assert forall|id: u32| #[trigger]
                    self.by_sub@.contains_key(id) == (s0.by_sub@.contains_key(id) && !has_sub(
                        stale,
                        id,
                    )) by {}
                assert(self.subs_of(cid) =~= Seq::empty());
                assert forall|id: u32| !has_sub(self.subs_of(cid), id) by {}
            }
        }
        dropped
    }

    /// Retire a consumer and everything under it. Returns the channels that
    /// lost their subscription.
    pub fn remove_consumer(&mut self, consumer_id: u32) -> (dropped: Vec<u64>)
        requires
            old(self).wf(),
        ensures
            final(self).wf(),
            final(self).by_consumer@ == old(self).by_consumer@.remove(consumer_id),
            final(self).by_sub@ == old(self).by_sub@.remove_keys(
                sub_ids(old(self).subs_of(consumer_id)),
            ),
            dropped@ == channels(old(self).subs_of(consumer_id)),
            old(self).by_consumer@.contains_key(consumer_id) ==> {
                let subs = old(self).by_consumer@[consumer_id].subs@;
                &&& dropped@.len() == subs.len()
                &&& forall|i: int| 0 <= i < subs.len() ==> #[trigger] dropped@[i] == subs[i].channel
            },
            !old(self).by_consumer@.contains_key(consumer_id) ==> dropped@.len() == 0,
            forall|id: u32| #[trigger]
                final(self).by_sub@.contains_key(id) <==> old(self).by_sub@.contains_key(id)
                    && old(self).by_sub@[id].consumer_id != consumer_id,
            forall|id: u32|
                final(self).by_sub@.contains_key(id) ==> #[trigger] final(self).by_sub@[id]
                    == old(self).by_sub@[id],
    {
        proof {
            self.ids_by_route(consumer_id);
        }
        let mut dropped: Vec<u64> = Vec::new();
        match self.detach(consumer_id) {
            Some(c) => {
                let mut i: usize = 0;
                assert(dropped@ =~= channels(c.subs@.take(0)));
                while i < c.subs.len()
                    invariant
                        i <= c.subs@.len(),
                        dropped@ == channels(c.subs@.take(i as int)),
                    decreases c.subs@.len() - i,
                {
                    dropped.push(c.subs[i].channel);
                    i = i + 1;
                    assert(dropped@ =~= channels(c.subs@.take(i as int)));
                }
                assert(c.subs@.take(i as int) =~= c.subs@);
            },
            None => {
                assert(dropped@ =~= channels(Seq::empty()));
            },
        }
        dropped
    }

    /// Delivered-set slot of a consumer.
    pub fn dedup_of(&self, consumer_id: u32) -> (r: Option<u32>)
        ensures
            r == if self.by_consumer@.contains_key(consumer_id) {
                self.by_consumer@[consumer_id].dedup
            } else {
                None
            },
    {
        match self.by_consumer.get(&consumer_id) {
            Some(c) => c.dedup,
            None => None,
        }
    }

    /// Every stored subscribe request, to be sent again on reconnect: by
    /// consumer id, and within a consumer in order of registration.
    pub fn replay_frames(&self) -> (r: Vec<Vec<u8>>)
        ensures
            r@.map_values(|f: Vec<u8>| f@) == all_frames(
                self.by_consumer@,
                listing32(self.by_consumer@.dom()),
            ),
    {
        let ids = sorted_keys32(&self.by_consumer);
        proof {
            listing32_of(ids@, self.by_consumer@.dom());
        }
        let mut out: Vec<Vec<u8>> = Vec::new();
        let mut k: usize = 0;
        assert(ids@.take(0) =~= Seq::empty());
        assert(out@.map_values(|f: Vec<u8>| f@) =~= Seq::empty());
        while k < ids.len()
            invariant
                k <= ids@.len(),
                lists32(ids@, self.by_consumer@.dom()),
                out@.map_values(|f: Vec<u8>| f@) == all_frames(
                    self.by_consumer@,
                    ids@.take(k as int),
                ),
            decreases ids@.len() - k,
        {
            let id: u32 = ids[k];
            proof {
                assert(ids@.to_set().contains(id));
                assert(ids@.take(k + 1).drop_last() =~= ids@.take(k as int));
            }
            let c = self.by_consumer.get(&id).unwrap();
            let ghost before = out@.map_values(|f: Vec<u8>| f@);
            let mut i: usize = 0;
            assert(before + frames_of(c.subs@.take(0)) =~= before);
            while i < c.subs.len()
                invariant
                    i <= c.subs@.len(),
                    out@.map_values(|f: Vec<u8>| f@) == before + frames_of(c.subs@.take(i as int)),
                decreases c.subs@.len() - i,
            {
                let f = sub_vec(c.subs[i].frame.as_slice(), 0, c.subs[i].frame.len());
                let ghost o0 = out@;
                let ghost fs = f@;
                assert(fs =~= c.subs@[i as int].frame@);
                out.push(f);
                proof {
                    assert(out@.map_values(|f: Vec<u8>| f@) =~= o0.map_values(
                        |f: Vec<u8>| f@,
                    ).push(fs));
                    assert(frames_of(c.subs@.take(i + 1)) =~= frames_of(
                        c.subs@.take(i as int),
                    ).push(fs));
                    assert(out@.map_values(|f: Vec<u8>| f@) =~= before + frames_of(
                        c.subs@.take(i + 1),
                    ));
                }
                i = i + 1;
            }
            assert(c.subs@.take(i as int) =~= c.subs@);
            k = k + 1;
        }
        assert(ids@.take(k as int) =~= ids@);
        out
    }

    /// Consumers with a delivered-set slot, in order of id.
    pub fn dedup_consumers(&self) -> (r: Vec<u32>)
        ensures
            r@ == with_dedup(self.by_consumer@, listing32(self.by_consumer@.dom())),
    {
        let ids = sorted_keys32(&self.by_consumer);
        proof {
            listing32_of(ids@, self.by_consumer@.dom());
        }
        let mut out: Vec<u32> = Vec::new();
        let mut k: usize = 0;
        assert(ids@.take(0) =~= Seq::empty());
        while k < ids.len()
            invariant
                k <= ids@.len(),
                lists32(ids@, self.by_consumer@.dom()),
                out@ == with_dedup(self.by_consumer@, ids@.take(k as int)),
            decreases ids@.len() - k,
        {
            let id: u32 = ids[k];
            proof {
                assert(ids@.to_set().contains(id));
                assert(ids@.take(k + 1).drop_last() =~= ids@.take(k as int));
            }
            let c = self.by_consumer.get(&id).unwrap();
            if c.dedup.is_some() {
                out.push(id);
            }
            k = k + 1;
        }
        assert(ids@.take(k as int) =~= ids@);
        out
    }

    /// Number of routes and of consumers.
    pub fn sizes(&self) -> (r: (usize, usize))
        ensures
            r.0 == self.by_sub@.dom().len(),
            r.1 == self.by_consumer@.dom().len(),
    {
        (self.by_sub.len(), self.by_consumer.len())
    }
}

/// The stored requests of a list of subscriptions.
pub open spec fn frames_of(subs: Seq<Subscription>) -> Seq<Seq<u8>> {
    subs.map_values(|s: Subscription| s.frame@)
}

/// The stored requests of a list of consumers.
pub open spec fn all_frames(m: Map<u32, Consumer>, ids: Seq<u32>) -> Seq<Seq<u8>>
    decreases ids.len(),
{
    if ids.len() == 0 {
        Seq::empty()
    } else {
        all_frames(m, ids.drop_last()) + frames_of(m[ids.last()].subs@)
    }
}

/// The consumers of a list that have a delivered-set slot.
pub open spec fn with_dedup(m: Map<u32, Consumer>, ids: Seq<u32>) -> Seq<u32>
    decreases ids.len(),
{
    if ids.len() == 0 {
        Seq::empty()
    } else {
        let before = with_dedup(m, ids.drop_last());
        if m[ids.last()].dedup is Some {
            before.push(ids.last())
        } else {
            before
        }
    }
}

proof fn push_sub_facts(kept: Seq<Subscription>, s: Subscription)
    requires
        !has_sub(kept, s.id),
    ensures
        distinct_ids(kept) ==> distinct_ids(kept.push(s)),
        forall|k: u32| #[trigger] has_sub(kept.push(s), k) == (has_sub(kept, k) || k == s.id),
{
    let w = kept.push(s);
    assert forall|k: u32| #[trigger] has_sub(w, k) == (has_sub(kept, k) || k == s.id) by {
        if has_sub(kept, k) {
            let j = choose|j: int| 0 <= j < kept.len() && (#[trigger] kept[j]).id == k;
            assert(w[j].id == k);
        }
        assert(w[kept.len() as int].id == s.id);
        if has_sub(w, k) {
            let j = choose|j: int| 0 <= j < w.len() && (#[trigger] w[j]).id == k;
            if j < kept.len() {
                assert(kept[j].id == k);
            }
        }
    }
    if distinct_ids(kept) {
        assert forall|a: int, b: int|
            #![trigger w[a], w[b]]
            0 <= a < b < w.len() implies w[a].id != w[b].id by {
            assert(w[a] == kept[a]);
            if b == kept.len() {
                assert(kept[a].id != s.id) by {
                    if kept[a].id == s.id {
                        assert(has_sub(kept, s.id));
                    }
                }
            } else {
                assert(w[b] == kept[b]);
            }
        }
    }
}

// ── laws ───────────────────────────────────────────────────────────────────
/// The table holds this subscription on consumer `c`.
pub open spec fn holds(s: Subscriptions, c: u32, sub: Subscription) -> bool {
    s.by_consumer@.contains_key(c) && s.by_consumer@[c].subs@.contains(sub)
}

proof fn without_members(subs: Seq<Subscription>, id: u32)
    ensures
        forall|x: Subscription| #[trigger]
            without(subs, id).contains(x) <==> subs.contains(x) && x.id != id,
        forall|x: Subscription| #[trigger]
            only(subs, id).contains(x) <==> subs.contains(x) && x.id == id,
        distinct_ids(subs) ==> only(subs, id).len() == if has_sub(subs, id) {
            1nat
        } else {
            0
        },
    decreases subs.len(),
{
    reveal(Seq::filter);
    if subs.len() > 0 {
        let t = subs.drop_last();
        let z = subs.last();
        without_members(t, id);
        let w = without(subs, id);
        let w0 = without(t, id);
        let o = only(subs, id);
        let o0 = only(t, id);
        assert(w == if z.id != id {
            w0.push(z)
        } else {
            w0
        });
        assert(o == if z.id == id {
            o0.push(z)
        } else {
            o0
        });
        push_members(w0, z);
        push_members(o0, z);
        push_members(t, z);
        assert(subs =~= t.push(z));
        if distinct_ids(subs) {
            assert(distinct_ids(t)) by {
                assert forall|i: int, j: int|
                    #![trigger t[i], t[j]]
                    0 <= i < j < t.len() implies t[i].id != t[j].id by {
                    assert(subs[i].id != subs[j].id);
                }
            }
            assert(has_sub(subs, id) == (has_sub(t, id) || z.id == id)) by {
                if has_sub(t, id) {
                    let j = choose|j: int| 0 <= j < t.len() && (#[trigger] t[j]).id == id;
                    assert(subs[j].id == id);
                }
                assert(subs[subs.len() - 1].id == z.id);
                if has_sub(subs, id) && z.id != id {
                    let j = choose|j: int| 0 <= j < subs.len() && (#[trigger] subs[j]).id == id;
                    assert(t[j].id == id);
                }
            }
            if z.id == id && has_sub(t, id) {
                let j = choose|j: int| 0 <= j < t.len() && (#[trigger] t[j]).id == id;
                assert(subs[j].id != subs[subs.len() - 1].id);
            }
        }
    }
}

proof fn push_members(s: Seq<Subscription>, z: Subscription)
    ensures
        forall|x: Subscription| #[trigger] s.push(z).contains(x) <==> s.contains(x) || x == z,
{
    let t = s.push(z);
    assert forall|x: Subscription| #[trigger] t.contains(x) <==> s.contains(x) || x == z by {
        if s.contains(x) {
            let j = choose|j: int| 0 <= j < s.len() && s[j] == x;
            assert(t[j] == x);
        }
        assert(t[s.len() as int] == z);
        if t.contains(x) {
            let j = choose|j: int| 0 <= j < t.len() && t[j] == x;
            if j < s.len() {
                assert(s[j] == x);
            }
        }
    }
}

/// Retiring a subscription retires that one and no other: its route is gone,
/// its channel is told, every other subscription stays where it is, with its
/// route, and a consumer goes only where nothing is left on it.
pub proof fn siblings_keep_running(
    s0: Subscriptions,
    sub_id: u32,
    s1: Subscriptions,
    dropped: Seq<u64>,
)
    requires
        s0.wf(),
        s1.wf(),
        removed(s0, sub_id, s1, dropped),
    ensures
        !s1.by_sub@.contains_key(sub_id),
        forall|k: u32| k != sub_id ==> #[trigger] s1.by_sub@.contains_key(k)
            == s0.by_sub@.contains_key(k),
        forall|k: u32|
            k != sub_id && s0.by_sub@.contains_key(k) ==> {
                let r = #[trigger] s1.by_sub@[k];
                &&& r.consumer_id == s0.by_sub@[k].consumer_id
                &&& r.stream_id == s0.by_sub@[k].stream_id
                &&& r.fanout == s0.by_sub@[k].fanout
                &&& r.dedup == s0.by_sub@[k].dedup
            },
        forall|c: u32, sub: Subscription| #[trigger]
            holds(s1, c, sub) <==> holds(s0, c, sub) && sub.id != sub_id,
        forall|c: u32| #[trigger]
            s1.by_consumer@.contains_key(c) <==> exists|sub: Subscription| #[trigger]
                holds(s0, c, sub) && sub.id != sub_id,
        dropped.len() == if s0.by_sub@.contains_key(sub_id) {
            1nat
        } else {
            0
        },
        forall|c: u32, sub: Subscription| #[trigger]
            holds(s0, c, sub) && sub.id == sub_id ==> dropped[0] == sub.channel,
{
    assert forall|c: u32, sub: Subscription| #[trigger] holds(s1, c, sub) <==> holds(s0, c, sub)
        && sub.id != sub_id by {
        removal_bereaves(s0, sub_id, s1, dropped, c);
        without_members(s0.subs_of(c), sub_id);
        assert(s1.subs_of(c).contains(sub) <==> s0.subs_of(c).contains(sub) && sub.id != sub_id);
    }
    assert forall|c: u32| #[trigger] s1.by_consumer@.contains_key(c) <==> exists|sub: Subscription|
        #[trigger] holds(s0, c, sub) && sub.id != sub_id by {
        if s1.by_consumer@.contains_key(c) {
            let sub = s1.by_consumer@[c].subs@[0];
            assert(holds(s1, c, sub));
        }
        if exists|sub: Subscription| #[trigger] holds(s0, c, sub) && sub.id != sub_id {
            let sub = choose|sub: Subscription| #[trigger] holds(s0, c, sub) && sub.id != sub_id;
            assert(holds(s1, c, sub));
        }
    }
    assert forall|k: u32| k != sub_id implies #[trigger] s1.by_sub@.contains_key(k)
        == s0.by_sub@.contains_key(k) by {
        if s0.by_sub@.contains_key(k) {
            let r = s0.by_sub@[k];
            assert(s0.route_ok(k));
            let sub = s0.by_consumer@[r.consumer_id].subs@[r.idx as int];
            assert(holds(s0, r.consumer_id, sub));
            assert(holds(s1, r.consumer_id, sub));
            let subs = s1.by_consumer@[r.consumer_id].subs@;
            let j = choose|j: int| 0 <= j < subs.len() && subs[j] == sub;
            assert(s1.by_consumer@[r.consumer_id].subs@[j].id == k);
        }
        if s1.by_sub@.contains_key(k) {
            let r = s1.by_sub@[k];
            assert(s1.route_ok(k));
            let sub = s1.by_consumer@[r.consumer_id].subs@[r.idx as int];
            assert(holds(s1, r.consumer_id, sub));
            assert(holds(s0, r.consumer_id, sub));
            let subs = s0.by_consumer@[r.consumer_id].subs@;
            let j = choose|j: int| 0 <= j < subs.len() && subs[j] == sub;
            assert(s0.by_consumer@[r.consumer_id].subs@[j].id == k);
        }
    }
    assert forall|k: u32| k != sub_id && s0.by_sub@.contains_key(k) implies {
        let r = #[trigger] s1.by_sub@[k];
        &&& r.consumer_id == s0.by_sub@[k].consumer_id
        &&& r.stream_id == s0.by_sub@[k].stream_id
        &&& r.fanout == s0.by_sub@[k].fanout
        &&& r.dedup == s0.by_sub@[k].dedup
    } by {
        let r0 = s0.by_sub@[k];
        assert(s0.route_ok(k));
        let sub = s0.by_consumer@[r0.consumer_id].subs@[r0.idx as int];
        assert(holds(s0, r0.consumer_id, sub));
        assert(holds(s1, r0.consumer_id, sub));
        let subs = s1.by_consumer@[r0.consumer_id].subs@;
        let j = choose|j: int| 0 <= j < subs.len() && subs[j] == sub;
        assert(s1.by_consumer@[r0.consumer_id].subs@[j].id == k);
        assert(s1.route_ok(k));
        removal_bereaves(s0, sub_id, s1, dropped, r0.consumer_id);
        assert(bereft(s0, sub_id, r0.consumer_id, s1));
    }
    if s0.by_sub@.contains_key(sub_id) {
        let cid = s0.by_sub@[sub_id].consumer_id;
        let subs = s0.by_consumer@[cid].subs@;
        assert(s0.route_ok(sub_id));
        without_members(subs, sub_id);
        assert(has_sub(subs, sub_id));
        assert forall|c: u32, sub: Subscription| #[trigger]
            holds(s0, c, sub) && sub.id == sub_id implies dropped[0] == sub.channel by {
            let l = s0.by_consumer@[c].subs@;
            let j = choose|j: int| 0 <= j < l.len() && l[j] == sub;
            assert(s0.by_consumer@[c].subs@[j].id == sub_id);
            assert(c == cid);
            assert(only(subs, sub_id).contains(sub));
        }
    } else {
        assert forall|c: u32, sub: Subscription| #[trigger]
            holds(s0, c, sub) && sub.id == sub_id implies dropped[0] == sub.channel by {
            let l = s0.by_consumer@[c].subs@;
            let j = choose|j: int| 0 <= j < l.len() && l[j] == sub;
            assert(s0.by_consumer@[c].subs@[j].id == sub_id);
        }
    }
}

/// The ids of the subscriptions of some consumers.
spec fn ids_under(m: Map<u32, Consumer>, ids: Seq<u32>) -> Set<u32> {
    Set::new(|k: u32| exists|c: int| 0 <= c < ids.len() && has_sub(m[#[trigger] ids[c]].subs@, k))
}

proof fn count_ids(subs: Seq<Subscription>)
    requires
        distinct_ids(subs),
    ensures
        sub_ids(subs).finite(),
        sub_ids(subs).len() == subs.len(),
    decreases subs.len(),
{
    if subs.len() == 0 {
        assert(sub_ids(subs) =~= Set::empty());
    } else {
        let t = subs.drop_last();
        let z = subs.last();
        assert(distinct_ids(t)) by {
            assert forall|i: int, j: int|
                #![trigger t[i], t[j]]
                0 <= i < j < t.len() implies t[i].id != t[j].id by {
                assert(subs[i].id != subs[j].id);
            }
        }
        count_ids(t);
        assert(!has_sub(t, z.id)) by {
            if has_sub(t, z.id) {
                let j = choose|j: int| 0 <= j < t.len() && (#[trigger] t[j]).id == z.id;
                assert(subs[j].id != subs[subs.len() - 1].id);
            }
        }
        push_sub_facts(t, z);
        assert(subs =~= t.push(z));
        assert(sub_ids(subs) =~= sub_ids(t).insert(z.id));
    }
}

proof fn frames_under(s: Subscriptions, ids: Seq<u32>)
    requires
        s.wf(),
        ascending32(ids),
        forall|c: int| 0 <= c < ids.len() ==> s.by_consumer@.contains_key(#[trigger] ids[c]),
    ensures
        ids_under(s.by_consumer@, ids).finite(),
        all_frames(s.by_consumer@, ids).len() == ids_under(s.by_consumer@, ids).len(),
        forall|c: int, i: int|
            #![trigger s.by_consumer@[ids[c]].subs@[i]]
            0 <= c < ids.len() && 0 <= i < s.by_consumer@[ids[c]].subs@.len() ==> all_frames(
                s.by_consumer@,
                ids,
            ).contains(s.by_consumer@[ids[c]].subs@[i].frame@),
        forall|f: Seq<u8>| #[trigger]
            all_frames(s.by_consumer@, ids).contains(f) ==> exists|c: u32, sub: Subscription|
                #[trigger] holds(s, c, sub) && sub.frame@ == f,
    decreases ids.len(),
{
    let m = s.by_consumer@;
    let all = all_frames(m, ids);
    if ids.len() == 0 {
        assert(ids_under(m, ids) =~= Set::empty());
    } else {
        let t = ids.drop_last();
        let z = ids.last();
        assert forall|c: int| 0 <= c < t.len() implies m.contains_key(#[trigger] t[c]) by {
            assert(m.contains_key(ids[c]));
        }
        assert(m.contains_key(ids[ids.len() - 1]));
        frames_under(s, t);
        count_ids(m[z].subs@);
        let before = all_frames(m, t);
        let new = frames_of(m[z].subs@);
        let u0 = ids_under(m, t);
        let u1 = sub_ids(m[z].subs@);
        assert forall|k: u32| ids_under(m, ids).contains(k) == (u0.contains(k) || u1.contains(k)) by {
            if u0.contains(k) {
                let c = choose|c: int| 0 <= c < t.len() && has_sub(m[#[trigger] t[c]].subs@, k);
                assert(ids[c] == t[c]);
            }
            assert(ids[ids.len() - 1] == z);
            if ids_under(m, ids).contains(k) && !u1.contains(k) {
                let c = choose|c: int| 0 <= c < ids.len() && has_sub(m[#[trigger] ids[c]].subs@, k);
                assert(t[c] == ids[c]);
            }
        }
        assert(ids_under(m, ids) =~= u0.union(u1));
        assert(u0.disjoint(u1)) by {
            assert forall|k: u32| u0.contains(k) implies !u1.contains(k) by {
                if u1.contains(k) {
                    let c = choose|c: int| 0 <= c < t.len() && has_sub(m[#[trigger] t[c]].subs@, k);
                    let a = m[t[c]].subs@;
                    let b = m[z].subs@;
                    let i = choose|i: int| 0 <= i < a.len() && (#[trigger] a[i]).id == k;
                    let j = choose|j: int| 0 <= j < b.len() && (#[trigger] b[j]).id == k;
                    assert(m.contains_key(t[c]));
                    assert(s.by_consumer@[t[c]].subs@[i].id == k);
                    assert(s.by_consumer@[z].subs@[j].id == k);
                    assert(ids[c] < ids[ids.len() - 1]);
                }
            }
        }
        vstd::set_lib::lemma_set_disjoint_lens(u0, u1);
        assert forall|c: int, i: int|
            #![trigger s.by_consumer@[ids[c]].subs@[i]]
            0 <= c < ids.len() && 0 <= i < s.by_consumer@[ids[c]].subs@.len() implies all.contains(
            s.by_consumer@[ids[c]].subs@[i].frame@,
        ) by {
            let f = s.by_consumer@[ids[c]].subs@[i].frame@;
            if c < t.len() {
                assert(t[c] == ids[c]);
                assert(before.contains(s.by_consumer@[t[c]].subs@[i].frame@));
                let j = choose|j: int| 0 <= j < before.len() && before[j] == f;
                assert(all[j] == f);
            } else {
                assert(new[i] == f);
                assert(all[before.len() + i] == f);
            }
        }
        assert forall|f: Seq<u8>| #[trigger] all.contains(f) implies exists|
            c: u32,
            sub: Subscription,
        | #[trigger] holds(s, c, sub) && sub.frame@ == f by {
            let j = choose|j: int| 0 <= j < all.len() && all[j] == f;
            if j < before.len() {
                assert(before[j] == f);
                assert(before.contains(f));
            } else {
                let sub = m[z].subs@[j - before.len()];
                assert(holds(s, z, sub));
                assert(new[j - before.len()] == f);
            }
        }
    }
}

/// Everything is opened again on a new connection: the list of requests holds
/// the request of every subscription of every consumer, nothing else, and as
/// many requests as there are subscriptions.
pub proof fn every_subscription_is_replayed(s: Subscriptions)
    requires
        s.wf(),
    ensures
        ({
            let r = all_frames(s.by_consumer@, listing32(s.by_consumer@.dom()));
            &&& r.len() == s.by_sub@.dom().len()
            &&& forall|c: u32, i: int|
                #![trigger s.by_consumer@[c].subs@[i]]
                s.by_consumer@.contains_key(c) && 0 <= i < s.by_consumer@[c].subs@.len()
                    ==> r.contains(s.by_consumer@[c].subs@[i].frame@)
            &&& forall|f: Seq<u8>| #[trigger]
                r.contains(f) ==> exists|c: u32, sub: Subscription| #[trigger]
                    holds(s, c, sub) && sub.frame@ == f
        }),
{
    let m = s.by_consumer@;
    let ids = listing32(m.dom());
    listing32_exists(m.dom());
    assert forall|c: int| 0 <= c < ids.len() implies m.contains_key(#[trigger] ids[c]) by {
        assert(ids.to_set().contains(ids[c]));
    }
    frames_under(s, ids);
    assert forall|c: u32, i: int|
        #![trigger s.by_consumer@[c].subs@[i]]
        m.contains_key(c) && 0 <= i < m[c].subs@.len() implies all_frames(m, ids).contains(
        s.by_consumer@[c].subs@[i].frame@,
    ) by {
        assert(ids.to_set().contains(c));
        let k = choose|k: int| 0 <= k < ids.len() && ids[k] == c;
        assert(all_frames(m, ids).contains(s.by_consumer@[ids[k]].subs@[i].frame@));
    }
    assert forall|k: u32| ids_under(m, ids).contains(k) == s.by_sub@.dom().contains(k) by {
        if ids_under(m, ids).contains(k) {
            let c = choose|c: int| 0 <= c < ids.len() && has_sub(m[#[trigger] ids[c]].subs@, k);
            let l = m[ids[c]].subs@;
            let j = choose|j: int| 0 <= j < l.len() && (#[trigger] l[j]).id == k;
            assert(s.by_consumer@[ids[c]].subs@[j].id == k);
        }
        if s.by_sub@.contains_key(k) {
            assert(s.route_ok(k));
            let r = s.by_sub@[k];
            assert(ids.to_set().contains(r.consumer_id));
            let c = choose|c: int| 0 <= c < ids.len() && ids[c] == r.consumer_id;
            assert(has_sub(m[ids[c]].subs@, k)) by {
                assert(m[ids[c]].subs@[r.idx as int].id == k);
            }
        }
    }
    assert(ids_under(m, ids) =~= s.by_sub@.dom());
}

proof fn with_dedup_members(m: Map<u32, Consumer>, ids: Seq<u32>)
    requires
        ascending32(ids),
    ensures
        ascending32(with_dedup(m, ids)),
        forall|c: u32| #[trigger]
            with_dedup(m, ids).contains(c) <==> ids.contains(c) && m[c].dedup is Some,
    decreases ids.len(),
{
    if ids.len() > 0 {
        let t = ids.drop_last();
        let z = ids.last();
        with_dedup_members(m, t);
        let before = with_dedup(m, t);
        let all = with_dedup(m, ids);
        assert forall|i: int| 0 <= i < before.len() implies before[i] < z by {
            assert(before.contains(before[i]));
            let j = choose|j: int| 0 <= j < t.len() && t[j] == before[i];
            assert(ids[j] < ids[ids.len() - 1]);
        }
        assert forall|c: u32| #[trigger] all.contains(c) <==> ids.contains(c) && m[c].dedup is Some by {
            if t.contains(c) {
                let j = choose|j: int| 0 <= j < t.len() && t[j] == c;
                assert(ids[j] == c);
            }
            assert(ids[ids.len() - 1] == z);
            if ids.contains(c) && c != z {
                let j = choose|j: int| 0 <= j < ids.len() && ids[j] == c;
                assert(t[j] == c);
            }
            if before.contains(c) {
                let j = choose|j: int| 0 <= j < before.len() && before[j] == c;
                assert(all[j] == c);
            }
            if m[z].dedup is Some {
                assert(all[before.len() as int] == z);
            }
            if all.contains(c) {
                let j = choose|j: int| 0 <= j < all.len() && all[j] == c;
                if j < before.len() {
                    assert(before[j] == c);
                }
            }
        }
    }
}

/// The consumers listed as having a delivered-set slot are those that have
/// one, each once.
pub proof fn slotted_consumers_are_listed(s: Subscriptions, c: u32)
    ensures
        ({
            let r = with_dedup(s.by_consumer@, listing32(s.by_consumer@.dom()));
            &&& ascending32(r)
            &&& r.contains(c) <==> s.by_consumer@.contains_key(c) && s.by_consumer@[c].dedup is Some
        }),
{
    let ids = listing32(s.by_consumer@.dom());
    listing32_exists(s.by_consumer@.dom());
    with_dedup_members(s.by_consumer@, ids);
    assert(ids.contains(c) == ids.to_set().contains(c));
}

/// A fanout reaches exactly the subscriptions whose filter accepts the
/// subject, each on its own channel.
pub proof fn fanout_reaches_whoever_accepts(subs: Seq<Subscription>, subject: Seq<u8>, t: Target)
    ensures
        fanout_targets(subs, subject).contains(t) <==> exists|i: int|
            0 <= i < subs.len() && (#[trigger] subs[i]).matcher.lets(subject) && subs[i].id
                == t.sub_id && subs[i].channel == t.channel,
        distinct_ids(subs) ==> fanout_targets(subs, subject).no_duplicates(),
    decreases subs.len(),
{
    if subs.len() > 0 {
        let s0 = subs.drop_last();
        let z = subs.last();
        fanout_reaches_whoever_accepts(s0, subject, t);
        let before = fanout_targets(s0, subject);
        let all = fanout_targets(subs, subject);
        let last = Target { sub_id: z.id, channel: z.channel };
        if before.contains(t) {
            let j = choose|j: int| 0 <= j < before.len() && before[j] == t;
            assert(all[j] == t);
            let i = choose|i: int|
                0 <= i < s0.len() && (#[trigger] s0[i]).matcher.lets(subject) && s0[i].id
                    == t.sub_id && s0[i].channel == t.channel;
            assert(subs[i] == s0[i]);
        }
        if z.matcher.lets(subject) {
            assert(all[before.len() as int] == last);
            assert(subs[subs.len() - 1] == z);
        }
        if all.contains(t) && !before.contains(t) {
            let j = choose|j: int| 0 <= j < all.len() && all[j] == t;
            if j < before.len() {
                assert(before[j] == t);
            }
        }
        if exists|i: int|
            0 <= i < subs.len() && (#[trigger] subs[i]).matcher.lets(subject) && subs[i].id
                == t.sub_id && subs[i].channel == t.channel {
            let i = choose|i: int|
                0 <= i < subs.len() && (#[trigger] subs[i]).matcher.lets(subject) && subs[i].id
                    == t.sub_id && subs[i].channel == t.channel;
            if i < s0.len() {
                assert(s0[i] == subs[i]);
                assert(before.contains(t));
            } else {
                assert(all[before.len() as int] == t);
            }
        }
        if distinct_ids(subs) {
            assert(distinct_ids(s0)) by {
                assert forall|i: int, j: int|
                    #![trigger s0[i], s0[j]]
                    0 <= i < j < s0.len() implies s0[i].id != s0[j].id by {
                    assert(subs[i].id != subs[j].id);
                }
            }
            fanout_reaches_whoever_accepts(s0, subject, last);
            if before.contains(last) {
                let i = choose|i: int|
                    0 <= i < s0.len() && (#[trigger] s0[i]).matcher.lets(subject) && s0[i].id
                        == z.id && s0[i].channel == z.channel;
                assert(subs[i].id != subs[subs.len() - 1].id);
            }
        }
    }
}

/// A fanout goes out in the order in which its subscriptions stand: of two
/// targets the earlier one belongs to the earlier subscription.
pub proof fn fanout_keeps_order(subs: Seq<Subscription>, subject: Seq<u8>, a: int, b: int)
    requires
        0 <= a < b < fanout_targets(subs, subject).len(),
    ensures
        exists|i: int, j: int|
            #![trigger subs[i], subs[j]]
            0 <= i < j < subs.len() && subs[i].id == fanout_targets(subs, subject)[a].sub_id
                && subs[j].id == fanout_targets(subs, subject)[b].sub_id,
    decreases subs.len(),
{
    if subs.len() > 0 {
        let s0 = subs.drop_last();
        let before = fanout_targets(s0, subject);
        let all = fanout_targets(subs, subject);
        if b < before.len() {
            fanout_keeps_order(s0, subject, a, b);
            let (i, j) = choose|i: int, j: int|
                #![trigger s0[i], s0[j]]
                0 <= i < j < s0.len() && s0[i].id == before[a].sub_id && s0[j].id
                    == before[b].sub_id;
            assert(subs[i] == s0[i] && subs[j] == s0[j]);
        } else {
            fanout_reaches_whoever_accepts(s0, subject, before[a]);
            assert(before.contains(before[a]));
            let i = choose|i: int|
                0 <= i < s0.len() && (#[trigger] s0[i]).matcher.lets(subject) && s0[i].id
                    == before[a].sub_id && s0[i].channel == before[a].channel;
            assert(subs[i] == s0[i]);
            assert(subs[subs.len() - 1].id == all[b].sub_id);
        }
    }
}

} // verus!
