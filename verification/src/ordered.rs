//! Ascending walks over the standard ordered collections.

use std::collections::BTreeMap;
use vstd::laws_cmp::{group_laws_cmp, obeys_cmp};
use vstd::prelude::*;
use vstd::std_specs::btree::increasing_seq;
use vstd::std_specs::cmp::OrdSpec;
use vstd::std_specs::iter::IteratorSpec;

verus! {

broadcast use group_laws_cmp;

/// Strictly ascending 64-bit numbers.
pub open spec fn ascending(s: Seq<u64>) -> bool {
    forall|i: int, j: int| 0 <= i < j < s.len() ==> s[i] < s[j]
}

/// Strictly ascending 32-bit numbers.
pub open spec fn ascending32(s: Seq<u32>) -> bool {
    forall|i: int, j: int| 0 <= i < j < s.len() ==> s[i] < s[j]
}

/// `s` lists the members of `d`, each once, in ascending order.
pub open spec fn lists(s: Seq<u64>, d: Set<u64>) -> bool {
    &&& ascending(s)
    &&& s.to_set() == d
    &&& s.len() == d.len()
}

/// `s` lists the members of `d`, each once, in ascending order.
pub open spec fn lists32(s: Seq<u32>, d: Set<u32>) -> bool {
    &&& ascending32(s)
    &&& s.to_set() == d
    &&& s.len() == d.len()
}

proof fn increasing_refs64(s: Seq<&u64>)
    requires
        increasing_seq(s),
    ensures
        ascending(s.unref()),
{
    assert(obeys_cmp::<&u64>());
    assert forall|i: int, j: int| 0 <= i < j < s.len() implies s.unref()[i] < s.unref()[j] by {
        assert(OrdSpec::cmp_spec(&s[i], &s[j]) is Less);
    }
}

proof fn increasing_refs32(s: Seq<&u32>)
    requires
        increasing_seq(s),
    ensures
        ascending32(s.unref()),
{
    assert(obeys_cmp::<&u32>());
    assert forall|i: int, j: int| 0 <= i < j < s.len() implies s.unref()[i] < s.unref()[j] by {
        assert(OrdSpec::cmp_spec(&s[i], &s[j]) is Less);
    }
}

/// There is one ascending listing of a set.
pub proof fn listing_is_unique(a: Seq<u64>, b: Seq<u64>)
    requires
        ascending(a),
        ascending(b),
        a.to_set() == b.to_set(),
    ensures
        a == b,
    decreases a.len(),
{
    if a.len() == 0 {
        if b.len() > 0 {
            assert(b.to_set().contains(b[0]));
            assert(a.to_set().contains(b[0]));
        }
        assert(a =~= b);
    } else {
        let x = a.last();
        assert(b.to_set().contains(x)) by {
            assert(a.to_set().contains(x));
        }
        assert(b.len() > 0);
        let y = b.last();
        assert(a.to_set().contains(y)) by {
            assert(b.to_set().contains(y));
        }
        let i = choose|i: int| 0 <= i < a.len() && a[i] == y;
        let j = choose|j: int| 0 <= j < b.len() && b[j] == x;
        assert(x == y);
        let a1 = a.drop_last();
        let b1 = b.drop_last();
        assert(a1.to_set() =~= b1.to_set()) by {
            assert forall|v: u64| a1.to_set().contains(v) implies b1.to_set().contains(v) by {
                let p = choose|p: int| 0 <= p < a1.len() && a1[p] == v;
                assert(a[p] == v && v < x);
                assert(a.to_set().contains(v));
                assert(b.to_set().contains(v));
                let q = choose|q: int| 0 <= q < b.len() && b[q] == v;
                assert(b1[q] == v);
            }
            assert forall|v: u64| b1.to_set().contains(v) implies a1.to_set().contains(v) by {
                let p = choose|p: int| 0 <= p < b1.len() && b1[p] == v;
                assert(b[p] == v && v < x);
                assert(b.to_set().contains(v));
                assert(a.to_set().contains(v));
                let q = choose|q: int| 0 <= q < a.len() && a[q] == v;
                assert(a1[q] == v);
            }
        }
        listing_is_unique(a1, b1);
        assert(a =~= a1.push(x));
        assert(b =~= b1.push(y));
    }
}

/// There is one ascending listing of a set.
pub proof fn listing_is_unique32(a: Seq<u32>, b: Seq<u32>)
    requires
        ascending32(a),
        ascending32(b),
        a.to_set() == b.to_set(),
    ensures
        a == b,
    decreases a.len(),
{
    if a.len() == 0 {
        if b.len() > 0 {
            assert(b.to_set().contains(b[0]));
            assert(a.to_set().contains(b[0]));
        }
        assert(a =~= b);
    } else {
        let x = a.last();
        assert(b.to_set().contains(x)) by {
            assert(a.to_set().contains(x));
        }
        assert(b.len() > 0);
        let y = b.last();
        assert(a.to_set().contains(y)) by {
            assert(b.to_set().contains(y));
        }
        let i = choose|i: int| 0 <= i < a.len() && a[i] == y;
        let j = choose|j: int| 0 <= j < b.len() && b[j] == x;
        assert(x == y);
        let a1 = a.drop_last();
        let b1 = b.drop_last();
        assert(a1.to_set() =~= b1.to_set()) by {
            assert forall|v: u32| a1.to_set().contains(v) implies b1.to_set().contains(v) by {
                let p = choose|p: int| 0 <= p < a1.len() && a1[p] == v;
                assert(a[p] == v && v < x);
                assert(a.to_set().contains(v));
                assert(b.to_set().contains(v));
                let q = choose|q: int| 0 <= q < b.len() && b[q] == v;
                assert(b1[q] == v);
            }
            assert forall|v: u32| b1.to_set().contains(v) implies a1.to_set().contains(v) by {
                let p = choose|p: int| 0 <= p < b1.len() && b1[p] == v;
                assert(b[p] == v && v < x);
                assert(b.to_set().contains(v));
                assert(a.to_set().contains(v));
                let q = choose|q: int| 0 <= q < a.len() && a[q] == v;
                assert(a1[q] == v);
            }
        }
        listing_is_unique32(a1, b1);
        assert(a =~= a1.push(x));
        assert(b =~= b1.push(y));
    }
}

/// The ascending listing of a set of 32-bit numbers.
pub open spec fn listing32(d: Set<u32>) -> Seq<u32> {
    choose|s: Seq<u32>| lists32(s, d)
}

pub proof fn listing32_of(s: Seq<u32>, d: Set<u32>)
    requires
        lists32(s, d),
    ensures
        listing32(d) == s,
{
    listing_is_unique32(listing32(d), s);
}

/// A finite set of 32-bit numbers has an ascending listing.
pub proof fn listing32_exists(d: Set<u32>)
    requires
        d.finite(),
    ensures
        lists32(listing32(d), d),
{
    finite_has_listing32(d);
}

proof fn finite_has_listing32(d: Set<u32>)
    requires
        d.finite(),
    ensures
        exists|s: Seq<u32>| lists32(s, d),
    decreases d.len(),
{
    if d.len() == 0 {
        assert(d =~= Set::empty());
        assert(Seq::<u32>::empty().to_set() =~= d);
        assert(lists32(Seq::<u32>::empty(), d));
    } else {
        let top = largest32(d);
        let rest = d.remove(top);
        finite_has_listing32(rest);
        let s = choose|s: Seq<u32>| lists32(s, rest);
        let t = s.push(top);
        assert forall|j: int| 0 <= j < s.len() implies s[j] < top by {
            assert(s.to_set().contains(s[j]));
            assert(rest.contains(s[j]));
        }
        assert forall|v: u32| t.to_set().contains(v) == d.contains(v) by {
            if s.contains(v) {
                let j = choose|j: int| 0 <= j < s.len() && s[j] == v;
                assert(t[j] == v);
            }
            assert(t[s.len() as int] == top);
            if t.contains(v) {
                let j = choose|j: int| 0 <= j < t.len() && t[j] == v;
                if j < s.len() {
                    assert(s[j] == v);
                }
            }
            assert(s.to_set().contains(v) == rest.contains(v));
        }
        assert(t.to_set() =~= d);
        assert(lists32(t, d));
    }
}

proof fn largest32(d: Set<u32>) -> (r: u32)
    requires
        d.finite(),
        d.len() > 0,
    ensures
        d.contains(r),
        forall|s: u32| d.contains(s) ==> s <= r,
    decreases d.len(),
{
    let x = d.choose();
    if d.len() == 1 {
        assert forall|s: u32| d.contains(s) implies s <= x by {
            if s != x {
                assert(d.remove(x).len() == 0);
                assert(d.remove(x).contains(s));
            }
        }
        x
    } else {
        let y = largest32(d.remove(x));
        assert forall|s: u32| d.contains(s) implies s <= (if x > y {
            x
        } else {
            y
        }) by {
            if s != x {
                assert(d.remove(x).contains(s));
            }
        }
        if x > y {
            x
        } else {
            y
        }
    }
}

/// The keys of a map, ascending.
pub fn sorted_keys<V>(m: &BTreeMap<u64, V>) -> (r: Vec<u64>)
    ensures
        lists(r@, m@.dom()),
{
    let mut out: Vec<u64> = Vec::new();
    let keys = m.keys();
    let ghost all = IteratorSpec::remaining(&keys).unref();
    proof {
        increasing_refs64(IteratorSpec::remaining(&keys));
    }
    for k in it: keys
        invariant
            it.seq().unref() == all,
            out@ == all.take(it.index() as int),
    {
        out.push(*k);
        assert(out@ =~= all.take(it.index() as int + 1));
    }
    assert(out@ =~= all);
    out
}

/// The keys of a map with 32-bit keys, ascending.
pub fn sorted_keys32<V>(m: &BTreeMap<u32, V>) -> (r: Vec<u32>)
    ensures
        lists32(r@, m@.dom()),
{
    let mut out: Vec<u32> = Vec::new();
    let keys = m.keys();
    let ghost all = IteratorSpec::remaining(&keys).unref();
    proof {
        increasing_refs32(IteratorSpec::remaining(&keys));
    }
    for k in it: keys
        invariant
            it.seq().unref() == all,
            out@ == all.take(it.index() as int),
    {
        out.push(*k);
        assert(out@ =~= all.take(it.index() as int + 1));
    }
    assert(out@ =~= all);
    out
}

} // verus!
