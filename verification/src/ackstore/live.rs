//! The live set of a slot: sequence number to the time it was recorded.

use crate::ordered::{ascending, listing_is_unique, lists, sorted_keys};
use std::collections::BTreeMap;
use vstd::prelude::*;

verus! {

broadcast use vstd::laws_cmp::group_laws_cmp;

/// Sequence number → time recorded (unix ms).
pub type LiveMap = BTreeMap<u64, i64>;

/// The entries above `cursor`.
pub open spec fn above(m: Map<u64, i64>, cursor: u64) -> Map<u64, i64> {
    m.restrict(Set::new(|s: u64| s > cursor))
}

/// The sequence numbers recorded before `cutoff`.
pub open spec fn expired_in(m: Map<u64, i64>, cutoff: i64) -> Set<u64> {
    m.dom().filter(|s: u64| m[s] < cutoff)
}

/// Drop every entry at or below `cursor`; returns how many were dropped.
pub fn drop_up_to(m: &mut LiveMap, cursor: u64) -> (removed: usize)
    ensures
        final(m)@ == above(old(m)@, cursor),
        removed == old(m)@.dom().len() - above(old(m)@, cursor).dom().len(),
{
    let before: usize = m.len();
    let keys = sorted_keys(m);
    let mut i: usize = 0;
    let ghost all = old(m)@;
    while i < keys.len()
        invariant
            i <= keys@.len(),
            keys@.to_set() == all.dom(),
            m@ == all.restrict(
                Set::new(|s: u64| !(s <= cursor && keys@.take(i as int).contains(s))),
            ),
        decreases keys@.len() - i,
    {
        if keys[i] <= cursor {
            m.remove(&keys[i]);
        }
        proof {
            let t = keys@.take(i + 1);
            assert(t =~= keys@.take(i as int).push(keys@[i as int]));
            assert forall|s: u64| t.contains(s) <==> (keys@.take(i as int).contains(s) || s
                == keys@[i as int]) by {
                if keys@.take(i as int).contains(s) {
                    let j = choose|j: int| 0 <= j < i && keys@.take(i as int)[j] == s;
                    assert(t[j] == s);
                }
                if s == keys@[i as int] {
                    assert(t[i as int] == s);
                }
            }
            assert(m@ =~= all.restrict(Set::new(|s: u64| !(s <= cursor && t.contains(s)))));
        }
        i = i + 1;
    }
    proof {
        assert(keys@.take(i as int) =~= keys@);
        assert forall|s: u64| all.contains_key(s) implies keys@.contains(s) by {
            assert(keys@.to_set().contains(s));
        }
        assert(m@ =~= above(all, cursor));
        vstd::set_lib::lemma_len_subset(m@.dom(), all.dom());
    }
    before - m.len()
}

/// The least of a list, zero for none.
pub open spec fn lowest(s: Seq<u64>) -> u64
    decreases s.len(),
{
    if s.len() == 0 {
        0
    } else if s.len() == 1 || s.last() < lowest(s.drop_last()) {
        s.last()
    } else {
        lowest(s.drop_last())
    }
}

/// The earliest of a list of times, zero for none.
pub open spec fn earliest(s: Seq<i64>) -> i64
    decreases s.len(),
{
    if s.len() == 0 {
        0
    } else if s.len() == 1 || s.last() < earliest(s.drop_last()) {
        s.last()
    } else {
        earliest(s.drop_last())
    }
}

/// The greatest member, zero for none.
pub open spec fn is_largest(d: Set<u64>, r: u64) -> bool {
    &&& forall|s: u64| d.contains(s) ==> s <= r
    &&& d.contains(r) || (r == 0 && forall|s: u64| !d.contains(s))
}

/// The least member, zero for none.
pub open spec fn is_smallest(d: Set<u64>, r: u64) -> bool {
    &&& forall|s: u64| d.contains(s) ==> r <= s
    &&& d.contains(r) || (r == 0 && forall|s: u64| !d.contains(s))
}

/// The ascending listing of a set.
pub open spec fn listing(d: Set<u64>) -> Seq<u64> {
    choose|s: Seq<u64>| lists(s, d)
}

/// The times of a live set, in ascending order of sequence number.
pub open spec fn times(m: Map<u64, i64>) -> Seq<i64> {
    listing(m.dom()).map_values(|k: u64| m[k])
}

/// Time of the oldest entry (see `earliest_is_minimum`).
pub open spec fn oldest_in(m: Map<u64, i64>) -> i64 {
    earliest(times(m))
}

pub proof fn listing_of(s: Seq<u64>, d: Set<u64>)
    requires
        lists(s, d),
    ensures
        listing(d) == s,
{
    listing_is_unique(listing(d), s);
}

/// `lowest` is the minimum of a list.
pub proof fn lowest_is_minimum(s: Seq<u64>)
    ensures
        s.len() > 0 ==> s.contains(lowest(s)),
        forall|v: u64| s.contains(v) ==> lowest(s) <= v,
    decreases s.len(),
{
    if s.len() > 0 {
        let t = s.drop_last();
        assert forall|v: u64| t.contains(v) implies s.contains(v) by {
            let j = choose|j: int| 0 <= j < t.len() && t[j] == v;
            assert(s[j] == v);
        }
        assert(s.contains(s.last()));
        lowest_is_minimum(t);
        assert forall|v: u64| s.contains(v) implies lowest(s) <= v by {
            let j = choose|j: int| 0 <= j < s.len() && s[j] == v;
            if j < t.len() {
                assert(t[j] == v);
                assert(t.contains(v));
            }
        }
    }
}

/// `earliest` is the minimum of a list.
pub proof fn earliest_is_minimum(s: Seq<i64>)
    ensures
        s.len() > 0 ==> s.contains(earliest(s)),
        forall|v: i64| s.contains(v) ==> earliest(s) <= v,
    decreases s.len(),
{
    if s.len() > 0 {
        let t = s.drop_last();
        assert forall|v: i64| t.contains(v) implies s.contains(v) by {
            let j = choose|j: int| 0 <= j < t.len() && t[j] == v;
            assert(s[j] == v);
        }
        assert(s.contains(s.last()));
        earliest_is_minimum(t);
        assert forall|v: i64| s.contains(v) implies earliest(s) <= v by {
            let j = choose|j: int| 0 <= j < s.len() && s[j] == v;
            if j < t.len() {
                assert(t[j] == v);
                assert(t.contains(v));
            }
        }
    }
}

/// Time of the oldest entry, in order of sequence number.
pub fn oldest(m: &LiveMap) -> (r: i64)
    ensures
        r == oldest_in(m@),
{
    let keys = sorted_keys(m);
    proof {
        listing_of(keys@, m@.dom());
    }
    let ghost ts = times(m@);
    let mut acc: i64 = 0;
    let mut i: usize = 0;
    while i < keys.len()
        invariant
            i <= keys@.len(),
            lists(keys@, m@.dom()),
            ts == keys@.map_values(|k: u64| m@[k]),
            acc == earliest(ts.take(i as int)),
        decreases keys@.len() - i,
    {
        assert(keys@.to_set().contains(keys@[i as int]));
        let t: i64 = *m.get(&keys[i]).unwrap();
        if i == 0 || t < acc {
            acc = t;
        }
        proof {
            assert(ts.take(i + 1).drop_last() =~= ts.take(i as int));
        }
        i = i + 1;
    }
    assert(ts.take(i as int) =~= ts);
    acc
}

/// Least and greatest live sequence number, zero for none.
pub fn bounds(m: &LiveMap) -> (r: (u64, u64))
    ensures
        is_smallest(m@.dom(), r.0),
        is_largest(m@.dom(), r.1),
{
    let keys = sorted_keys(m);
    let n: usize = keys.len();
    if n == 0 {
        proof {
            assert forall|s: u64| !m@.dom().contains(s) by {
                if m@.dom().contains(s) {
                    assert(keys@.to_set().contains(s));
                }
            }
        }
        return (0, 0);
    }
    proof {
        assert forall|s: u64| m@.dom().contains(s) implies keys@[0] <= s <= keys@[n - 1] by {
            assert(keys@.to_set().contains(s));
            let j = choose|j: int| 0 <= j < n && keys@[j] == s;
        }
        assert(keys@.to_set().contains(keys@[n - 1]));
        assert(keys@.to_set().contains(keys@[0]));
    }
    (keys[0], keys[n - 1])
}

/// The live sequence numbers older than `cutoff`, ascending.
pub fn older_than(m: &LiveMap, cutoff: i64) -> (expired: Vec<u64>)
    ensures
        lists(expired@, expired_in(m@, cutoff)),
        expired@ == listing(expired_in(m@, cutoff)),
{
    let keys = sorted_keys(m);
    let mut expired: Vec<u64> = Vec::new();
    let mut i: usize = 0;
    while i < keys.len()
        invariant
            i <= keys@.len(),
            lists(keys@, m@.dom()),
            ascending(expired@),
            forall|j: int, k: int| 0 <= j < expired@.len() && i <= k < keys@.len() ==> expired@[j]
                < keys@[k],
            forall|s: u64| #[trigger]
                expired@.contains(s) <==> (m@.contains_key(s) && m@[s] < cutoff
                    && keys@.take(i as int).contains(s)),
        decreases keys@.len() - i,
    {
        let k: u64 = keys[i];
        let ghost before = expired@;
        assert(keys@.to_set().contains(k));
        let t: i64 = *m.get(&k).unwrap();
        if t < cutoff {
            expired.push(k);
        }
        proof {
            let a = keys@.take(i as int);
            let b = keys@.take(i + 1);
            push_contains(a, k);
            assert(b =~= a.push(k));
            if t < cutoff {
                push_contains(before, k);
            }
            assert(!a.contains(k)) by {
                if a.contains(k) {
                    let j = choose|j: int| 0 <= j < i && a[j] == k;
                    assert(keys@[j] < keys@[i as int]);
                }
            }
            assert forall|s: u64| #[trigger]
                expired@.contains(s) <==> (m@.contains_key(s) && m@[s] < cutoff && b.contains(
                    s,
                )) by {
                assert(before.contains(s) <==> (m@.contains_key(s) && m@[s] < cutoff && a.contains(
                    s,
                )));
                assert(b.contains(s) <==> (a.contains(s) || s == k));
            }
        }
        i = i + 1;
    }
    proof {
        assert(keys@.take(i as int) =~= keys@);
        assert forall|s: u64| m@.contains_key(s) implies keys@.contains(s) by {
            assert(keys@.to_set().contains(s));
        }
        assert(expired@.to_set() =~= expired_in(m@, cutoff));
        expired@.unique_seq_to_set();
        listing_of(expired@, expired_in(m@, cutoff));
    }
    expired
}

/// What a list holds after a push.
pub proof fn push_contains(s: Seq<u64>, x: u64)
    ensures
        forall|v: u64| #[trigger] s.push(x).contains(v) <==> (s.contains(v) || v == x),
{
    assert forall|v: u64| #[trigger] s.push(x).contains(v) <==> (s.contains(v) || v == x) by {
        if s.contains(v) {
            let j = choose|j: int| 0 <= j < s.len() && s[j] == v;
            assert(s.push(x)[j] == v);
        }
        assert(s.push(x)[s.len() as int] == x);
        if s.push(x).contains(v) {
            let j = choose|j: int| 0 <= j < s.push(x).len() && s.push(x)[j] == v;
            if j < s.len() {
                assert(s[j] == v);
            }
        }
    }
}

/// The oldest entry is the one with the earliest time: some entry has that
/// time, and none an earlier one.
pub proof fn oldest_is_minimum(m: Map<u64, i64>)
    requires
        m.dom().finite(),
    ensures
        m.dom().len() > 0 ==> exists|s: u64| #[trigger] m.contains_key(s) && m[s] == oldest_in(m),
        forall|s: u64| #[trigger] m.contains_key(s) ==> oldest_in(m) <= m[s],
{
    crate::ackstore::snapshot::listing_exists(m);
    let l = listing(m.dom());
    let t = times(m);
    earliest_is_minimum(t);
    if m.dom().len() > 0 {
        let i = choose|i: int| 0 <= i < t.len() && t[i] == earliest(t);
        assert(l.to_set().contains(l[i]));
        assert(m.contains_key(l[i]) && m[l[i]] == oldest_in(m));
    }
    assert forall|s: u64| #[trigger] m.contains_key(s) implies oldest_in(m) <= m[s] by {
        assert(l.to_set().contains(s));
        let i = choose|i: int| 0 <= i < l.len() && l[i] == s;
        assert(t[i] == m[s]);
        assert(t.contains(m[s]));
    }
}

} // verus!
