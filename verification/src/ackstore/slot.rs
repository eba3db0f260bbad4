//! One `(stream, consumer)` pair's delivered set: the live sequence numbers,
//! the order in which they were recorded, and the bounds that let most probes
//! skip the exact lookup.

use crate::ackstore::live::{
    above, drop_up_to, listing, listing_of, lowest, lowest_is_minimum, LiveMap,
};
use crate::ordered::sorted_keys;
use std::collections::BTreeMap;
use vstd::prelude::*;

verus! {

broadcast use vstd::laws_cmp::group_laws_cmp;

/// What a slot holds. The bounds say nothing while nothing is live.
#[verifier::ext_equal]
pub struct SlotModel {
    /// Sequence number → time recorded.
    pub live: Map<u64, i64>,
    /// The live sequence numbers, in the order of their recording.
    pub fifo: Seq<u64>,
    pub tombed: bool,
    pub min_seq: u64,
    pub max_seq: u64,
}

impl SlotModel {
    pub open spec fn empty() -> SlotModel {
        SlotModel { live: Map::empty(), fifo: Seq::empty(), tombed: false, min_seq: 0, max_seq: 0 }
    }

    /// The bounds gate: nothing is live, or outside the bounds.
    pub open spec fn fresh(self, seq: u64) -> bool {
        self.live.is_empty() || seq > self.max_seq || seq < self.min_seq
    }

    /// The delivery-path probe.
    pub open spec fn seen(self, seq: u64) -> bool {
        !self.fresh(seq) && self.live.contains_key(seq)
    }

    /// With a new `seq` at the end of the recording order.
    pub open spec fn pushed(self, seq: u64, now: i64) -> SlotModel {
        SlotModel {
            live: self.live.insert(seq, now),
            fifo: self.fifo.push(seq),
            tombed: self.tombed,
            min_seq: if self.live.is_empty() || seq < self.min_seq {
                seq
            } else {
                self.min_seq
            },
            max_seq: if seq > self.max_seq {
                seq
            } else {
                self.max_seq
            },
        }
    }

    /// How many live entries there are over the cap.
    pub open spec fn excess(self, cap: usize) -> int {
        if self.fifo.len() > cap {
            self.fifo.len() - cap
        } else {
            0
        }
    }

    /// The live entries over the cap: the oldest recordings.
    pub open spec fn surplus(self, cap: usize) -> Seq<u64> {
        self.fifo.take(self.excess(cap))
    }

    /// Without the live entries over the cap.
    pub open spec fn capped(self, cap: usize) -> SlotModel {
        SlotModel {
            live: self.live.remove_keys(self.surplus(cap).to_set()),
            fifo: self.fifo.skip(self.excess(cap)),
            ..self
        }
    }

    /// After recording a new `seq`.
    pub open spec fn recorded(self, seq: u64, now: i64, cap: usize) -> SlotModel {
        self.pushed(seq, now).capped(cap)
    }

    /// After the broker confirmed `seq`.
    pub open spec fn confirmed(self, seq: u64) -> SlotModel {
        SlotModel { live: self.live.remove(seq), fifo: self.fifo.remove_value(seq), ..self }
    }

    /// With only live entries in the recording order, and the lower bound
    /// taken from them. An empty order leaves everything as it is.
    pub open spec fn with_compact_fifo(self) -> SlotModel {
        let kept = self.fifo.filter(|s: u64| self.live.contains_key(s));
        if self.fifo.len() == 0 {
            self
        } else {
            SlotModel { fifo: kept, min_seq: lowest(kept), ..self }
        }
    }

    /// With `live`, a part of what was live, in place of it.
    pub open spec fn narrowed(self, live: Map<u64, i64>) -> SlotModel {
        SlotModel { live, ..self }.with_compact_fifo()
    }

    /// After everything at or below `cursor` was dropped.
    pub open spec fn dropped_to(self, cursor: u64) -> SlotModel {
        let live = above(self.live, cursor);
        if live.dom().len() == self.live.dom().len() {
            self
        } else {
            self.narrowed(live)
        }
    }

    /// After the slot was deleted.
    pub open spec fn deleted(self) -> SlotModel {
        SlotModel { tombed: true, ..SlotModel::empty() }
    }

    /// A slot that comes back from the log with this live set. Its recording
    /// order is that of the sequence numbers.
    pub open spec fn replayed(live: Map<u64, i64>) -> SlotModel {
        let seqs = listing(live.dom());
        SlotModel {
            live,
            fifo: seqs,
            tombed: false,
            min_seq: if seqs.len() == 0 {
                0
            } else {
                seqs[0]
            },
            max_seq: if seqs.len() == 0 {
                0
            } else {
                seqs.last()
            },
        }
    }

    /// Every live entry is inside the bounds.
    pub open spec fn gated(self) -> bool {
        forall|s: u64| #[trigger]
            self.live.contains_key(s) ==> self.min_seq <= s <= self.max_seq
    }

    /// The recording order lists the live entries, each once, and the bounds
    /// hold them. A deleted slot holds nothing.
    pub open spec fn wf(self) -> bool {
        &&& self.fifo.no_duplicates()
        &&& forall|s: u64| #[trigger] self.live.contains_key(s) ==> self.fifo.contains(s)
        &&& forall|s: u64| #[trigger] self.fifo.contains(s) ==> self.live.contains_key(s)
        &&& self.gated()
        &&& self.live.dom().finite()
        &&& self.tombed ==> self == SlotModel::empty().deleted()
    }
}

/// The mutable part of a slot.
pub struct SlotState {
    pub set: LiveMap,
    pub fifo: Vec<u64>,
    pub tombed: bool,
    pub min_seq: u64,
    pub max_seq: u64,
}

impl View for SlotState {
    type V = SlotModel;

    open spec fn view(&self) -> SlotModel {
        SlotModel {
            live: self.set@,
            fifo: self.fifo@,
            tombed: self.tombed,
            min_seq: self.min_seq,
            max_seq: self.max_seq,
        }
    }
}

impl SlotState {
    pub fn new() -> (r: SlotState)
        ensures
            r@ == SlotModel::empty(),
            r@.wf(),
    {
        SlotState {
            set: BTreeMap::new(),
            fifo: Vec::new(),
            tombed: false,
            min_seq: 0,
            max_seq: 0,
        }
    }

    /// A slot that comes back from the log.
    pub fn from_live(set: LiveMap) -> (r: SlotState)
        ensures
            r@ == SlotModel::replayed(set@),
            r@.wf(),
    {
        let fifo = sorted_keys(&set);
        let n: usize = fifo.len();
        let min_seq: u64 = if n == 0 {
            0
        } else {
            fifo[0]
        };
        let max_seq: u64 = if n == 0 {
            0
        } else {
            fifo[n - 1]
        };
        let r = SlotState { set, fifo, tombed: false, min_seq, max_seq };
        proof {
            listing_of(fifo@, set@.dom());
            assert forall|s: u64| #[trigger] set@.contains_key(s) implies fifo@.contains(s)
                && min_seq <= s <= max_seq by {
                assert(fifo@.to_set().contains(s));
                let j = choose|j: int| 0 <= j < n && fifo@[j] == s;
            }
            assert forall|s: u64| #[trigger] fifo@.contains(s) implies set@.contains_key(s) by {
                assert(fifo@.to_set().contains(s));
            }
        }
        r
    }

    /// Outside the recorded range, so certainly not seen.
    pub fn fresh(&self, seq: u64) -> (r: bool)
        ensures
            r == self@.fresh(seq),
    {
        if self.set.is_empty() || seq > self.max_seq {
            return true;
        }
        seq < self.min_seq
    }

    /// Bounds gate first, exact lookup only inside the bounds.
    pub fn seen(&self, seq: u64) -> (r: bool)
        ensures
            r == self@.seen(seq),
    {
        if self.fresh(seq) {
            return false;
        }
        self.set.contains_key(&seq)
    }

    /// Take out the live entries over `cap`, the oldest recordings first.
    pub fn evict(&mut self, cap: usize) -> (gone: Vec<u64>)
        requires
            old(self)@.wf(),
            !old(self)@.tombed,
        ensures
            final(self)@ == old(self)@.capped(cap),
            final(self)@.wf(),
            gone@ == old(self)@.surplus(cap),
    {
        let ghost m0 = self@;
        proof {
            capped_wf(m0, cap);
        }
        if self.fifo.len() <= cap {
            proof {
                assert(m0.surplus(cap) =~= Seq::empty());
                assert(m0.capped(cap) =~= m0);
            }
            return Vec::new();
        }
        let n: usize = self.fifo.len() - cap;
        let rest = self.fifo.split_off(n);
        let mut gone: Vec<u64> = Vec::new();
        std::mem::swap(&mut gone, &mut self.fifo);
        self.fifo = rest;
        assert(gone@ =~= m0.surplus(cap));
        assert(self.fifo@ =~= m0.fifo.skip(n as int));
        let mut i: usize = 0;
        assert(m0.live.remove_keys(gone@.take(0).to_set()) =~= m0.live);
        while i < gone.len()
            invariant
                i <= gone@.len(),
                self@ == (SlotModel {
                    live: m0.live.remove_keys(gone@.take(i as int).to_set()),
                    fifo: self.fifo@,
                    ..m0
                }),
                self.fifo@ == m0.fifo.skip(n as int),
            decreases gone@.len() - i,
        {
            self.set.remove(&gone[i]);
            proof {
                taken_set(gone@, i as int);
                assert(self.set@ =~= m0.live.remove_keys(gone@.take(i + 1).to_set()));
            }
            i = i + 1;
        }
        assert(gone@.take(i as int) =~= gone@);
        gone
    }

    /// Put a new `seq` into the live set, pushing out the oldest recordings
    /// over `cap`, which are returned.
    pub fn insert(&mut self, seq: u64, now: i64, cap: usize) -> (gone: Vec<u64>)
        requires
            old(self)@.wf(),
            !old(self)@.tombed,
            !old(self)@.live.contains_key(seq),
        ensures
            final(self)@ == old(self)@.recorded(seq, now, cap),
            final(self)@.wf(),
            gone@ == old(self)@.pushed(seq, now).surplus(cap),
    {
        let ghost m0 = self@;
        if self.set.is_empty() || seq < self.min_seq {
            self.min_seq = seq;
        }
        if seq > self.max_seq {
            self.max_seq = seq;
        }
        self.set.insert(seq, now);
        self.fifo.push(seq);
        proof {
            pushed_wf(m0, seq, now);
        }
        self.evict(cap)
    }

    /// Take `seq` out; tells whether it was live.
    pub fn confirm(&mut self, seq: u64) -> (was: bool)
        requires
            old(self)@.wf(),
        ensures
            final(self)@ == old(self)@.confirmed(seq),
            final(self)@.wf(),
            was == old(self)@.live.contains_key(seq),
    {
        let ghost m0 = self@;
        proof {
            m0.fifo.index_of_first_ensures(seq);
            confirmed_wf(m0, seq);
        }
        if !self.set.contains_key(&seq) {
            assert(m0.confirmed(seq) =~= m0);
            return false;
        }
        self.set.remove(&seq);
        let n: usize = self.fifo.len();
        let mut i: usize = 0;
        while self.fifo[i] != seq
            invariant
                i < n,
                n == self.fifo@.len(),
                self.fifo@ == m0.fifo,
                m0.fifo.contains(seq),
                forall|j: int| 0 <= j < i ==> m0.fifo[j] != seq,
                self@ == (SlotModel { live: m0.live.remove(seq), ..m0 }),
            decreases self.fifo@.len() - i,
        {
            proof {
                let k = choose|k: int| 0 <= k < m0.fifo.len() && m0.fifo[k] == seq;
                assert(k > i);
            }
            i = i + 1;
        }
        self.fifo.remove(i);
        true
    }

    /// Take out everything at or below `cursor`; returns how many entries that
    /// were.
    pub fn drop_to(&mut self, cursor: u64) -> (removed: usize)
        requires
            old(self)@.wf(),
        ensures
            final(self)@ == old(self)@.dropped_to(cursor),
            final(self)@.live == above(old(self)@.live, cursor),
            final(self)@.wf(),
            removed == old(self)@.live.dom().len() - above(old(self)@.live, cursor).dom().len(),
    {
        let ghost m0 = self@;
        let removed: usize = drop_up_to(&mut self.set, cursor);
        proof {
            dropped_wf(m0, cursor);
        }
        if removed > 0 {
            self.compact_fifo();
        }
        removed
    }

    /// Take out all of a list.
    pub fn drop_all(&mut self, seqs: &Vec<u64>)
        requires
            old(self)@.wf(),
            seqs@.len() > 0,
        ensures
            final(self)@ == old(self)@.narrowed(old(self)@.live.remove_keys(seqs@.to_set())),
            final(self)@.wf() || old(self)@.tombed,
    {
        let ghost m0 = self@;
        let mut i: usize = 0;
        assert(m0.live.remove_keys(seqs@.take(0).to_set()) =~= m0.live);
        while i < seqs.len()
            invariant
                i <= seqs@.len(),
                self@ == (SlotModel {
                    live: m0.live.remove_keys(seqs@.take(i as int).to_set()),
                    ..m0
                }),
            decreases seqs@.len() - i,
        {
            self.set.remove(&seqs[i]);
            proof {
                taken_set(seqs@, i as int);
                assert(self.set@ =~= m0.live.remove_keys(seqs@.take(i + 1).to_set()));
            }
            i = i + 1;
        }
        assert(seqs@.take(i as int) =~= seqs@);
        self.compact_fifo();
        proof {
            if !m0.tombed {
                narrowed_wf(m0, m0.live.remove_keys(seqs@.to_set()));
            }
        }
    }

    /// Forget entries of the recording order that are not live, and take the
    /// lower bound from what stays. The upper bound never goes down.
    pub fn compact_fifo(&mut self)
        ensures
            final(self)@ == old(self)@.with_compact_fifo(),
    {
        let ghost m0 = self@;
        if self.fifo.len() == 0 {
            return;
        }
        let ghost p = |s: u64| m0.live.contains_key(s);
        let mut kept: Vec<u64> = Vec::new();
        let mut min: u64 = 0;
        let mut i: usize = 0;
        assert(m0.fifo.take(0).filter(p) =~= Seq::empty()) by {
            reveal(Seq::filter);
        }
        while i < self.fifo.len()
            invariant
                i <= self.fifo@.len(),
                self@ == m0,
                p == (|s: u64| m0.live.contains_key(s)),
                kept@ == m0.fifo.take(i as int).filter(p),
                min == lowest(kept@),
            decreases self.fifo@.len() - i,
        {
            let seq: u64 = self.fifo[i];
            proof {
                reveal(Seq::filter);
                assert(m0.fifo.take(i + 1).drop_last() =~= m0.fifo.take(i as int));
            }
            if self.set.contains_key(&seq) {
                let ghost before = kept@;
                if kept.len() == 0 || seq < min {
                    min = seq;
                }
                kept.push(seq);
                assert(kept@.drop_last() =~= before);
            }
            i = i + 1;
        }
        assert(m0.fifo.take(i as int) =~= m0.fifo);
        self.fifo = kept;
        self.min_seq = min;
    }
}

/// One more of a list.
proof fn taken_set(s: Seq<u64>, i: int)
    requires
        0 <= i < s.len(),
    ensures
        s.take(i + 1).to_set() == s.take(i).to_set().insert(s[i]),
{
    let a = s.take(i);
    let b = s.take(i + 1);
    assert(b =~= a.push(s[i]));
    crate::ackstore::live::push_contains(a, s[i]);
    assert forall|v: u64| b.to_set().contains(v) == a.to_set().insert(s[i]).contains(v) by {
        assert(b.contains(v) <==> (a.contains(v) || v == s[i]));
    }
    assert(b.to_set() =~= a.to_set().insert(s[i]));
}

proof fn pushed_wf(m: SlotModel, seq: u64, now: i64)
    requires
        m.wf(),
        !m.tombed,
        !m.live.contains_key(seq),
    ensures
        m.pushed(seq, now).wf(),
{
    let r = m.pushed(seq, now);
    crate::ackstore::live::push_contains(m.fifo, seq);
    assert(!m.fifo.contains(seq));
    assert(r.fifo.no_duplicates());
    assert forall|s: u64| #[trigger] r.live.contains_key(s) implies r.min_seq <= s
        <= r.max_seq by {
        assert(s == seq || m.live.contains_key(s));
    }
}

/// Taking out the surplus keeps a slot well formed.
pub proof fn capped_wf(m: SlotModel, cap: usize)
    requires
        m.wf(),
        !m.tombed,
    ensures
        m.capped(cap).wf(),
        m.capped(cap).live.dom().len() <= cap,
        m.live.dom().len() == m.fifo.len(),
        m.live.dom().len() <= cap ==> m.capped(cap) == m,
{
    let n = m.excess(cap);
    let r = m.capped(cap);
    let gone = m.surplus(cap);
    live_is_fifo(m);
    assert forall|s: u64| #[trigger] r.live.contains_key(s) implies r.fifo.contains(s) by {
        assert(m.live.contains_key(s));
        let j = choose|j: int| 0 <= j < m.fifo.len() && m.fifo[j] == s;
        if j < n {
            assert(gone[j] == s);
            assert(gone.to_set().contains(s));
        }
        assert(r.fifo[j - n] == s);
    }
    assert forall|s: u64| #[trigger] r.fifo.contains(s) implies r.live.contains_key(s) by {
        let j = choose|j: int| 0 <= j < r.fifo.len() && r.fifo[j] == s;
        assert(m.fifo[j + n] == s);
        assert(m.fifo.contains(s));
        assert(m.live.contains_key(s));
        if gone.contains(s) {
            let k = choose|k: int| 0 <= k < gone.len() && gone[k] == s;
            assert(m.fifo[k] == m.fifo[j + n]);
        }
    }
    assert(r.live.dom().subset_of(m.live.dom()));
    vstd::set_lib::lemma_set_subset_finite(m.live.dom(), r.live.dom());
    assert forall|s: u64| #[trigger] r.live.contains_key(s) implies r.min_seq <= s
        <= r.max_seq by {
        assert(m.live.contains_key(s));
    }
    assert(r.wf());
    live_is_fifo(r);
    if m.fifo.len() <= cap {
        assert(gone =~= Seq::empty());
        assert(r =~= m);
    }
}

/// There are as many live entries as there are in the recording order.
proof fn live_is_fifo(m: SlotModel)
    requires
        m.wf(),
    ensures
        m.live.dom() == m.fifo.to_set(),
        m.live.dom().len() == m.fifo.len(),
{
    m.fifo.unique_seq_to_set();
    assert forall|s: u64| m.live.dom().contains(s) == m.fifo.to_set().contains(s) by {
        if m.live.dom().contains(s) {
            assert(m.live.contains_key(s));
        }
        if m.fifo.to_set().contains(s) {
            assert(m.fifo.contains(s));
        }
    }
    assert(m.live.dom() =~= m.fifo.to_set());
}

proof fn confirmed_wf(m: SlotModel, seq: u64)
    requires
        m.wf(),
    ensures
        m.confirmed(seq).wf(),
{
    let r = m.confirmed(seq);
    m.fifo.index_of_first_ensures(seq);
    match m.fifo.index_of_first(seq) {
        Some(i) => {
            assert(r.fifo == m.fifo.remove(i));
            assert(m.fifo.contains(seq));
            assert forall|s: u64| #[trigger] r.live.contains_key(s) implies r.fifo.contains(s)
                && r.min_seq <= s <= r.max_seq by {
                assert(m.live.contains_key(s));
                let j = choose|j: int| 0 <= j < m.fifo.len() && m.fifo[j] == s;
                assert(r.fifo[if j < i { j } else { j - 1 }] == s);
            }
            assert forall|s: u64| #[trigger] r.fifo.contains(s) implies r.live.contains_key(
                s,
            ) by {
                let j = choose|j: int| 0 <= j < r.fifo.len() && r.fifo[j] == s;
                let k = if j < i { j } else { j + 1 };
                assert(m.fifo[k] == s);
                assert(m.fifo.contains(s));
                assert(m.fifo[k] != m.fifo[i]);
            }
            assert(r.fifo.no_duplicates());
        },
        None => {
            assert(r =~= m);
        },
    }
}

/// Keeping a part of the live entries keeps a slot well formed.
pub proof fn narrowed_wf(m: SlotModel, live: Map<u64, i64>)
    requires
        m.wf(),
        !m.tombed,
        live.dom().subset_of(m.live.dom()),
    ensures
        m.narrowed(live).wf(),
        m.narrowed(live).live == live,
        !live.is_empty() ==> live.contains_key(m.narrowed(live).min_seq),
{
    let p = |s: u64| live.contains_key(s);
    let kept = m.fifo.filter(p);
    let r = m.narrowed(live);
    vstd::set_lib::lemma_set_subset_finite(m.live.dom(), live.dom());
    if m.fifo.len() == 0 {
        assert forall|s: u64| !#[trigger] live.contains_key(s) by {
            if live.contains_key(s) {
                assert(m.live.contains_key(s));
                assert(m.fifo.contains(s));
            }
        }
        assert(live.dom() =~= Set::empty());
        assert forall|s: u64| !#[trigger] r.fifo.contains(s) by {}
    } else {
        filter_distinct(m.fifo, p);
        assert forall|s: u64| #[trigger] live.contains_key(s) implies kept.contains(s)
            && m.live.contains_key(s) by {
            assert(m.live.contains_key(s));
            let j = choose|j: int| 0 <= j < m.fifo.len() && m.fifo[j] == s;
            assert(p(m.fifo[j]));
            kept_contains(m.fifo, p, j);
        }
        assert forall|s: u64| #[trigger] kept.contains(s) implies live.contains_key(s) by {
            let j = choose|j: int| 0 <= j < kept.len() && kept[j] == s;
            filter_holds(m.fifo, p, j);
        }
        lowest_is_minimum(kept);
        if !live.is_empty() {
            let s = live.dom().choose();
            assert(live.contains_key(s));
            assert(kept.contains(s));
        }
    }
}

/// Dropping up to a cursor keeps a slot well formed, and leaves the live
/// entries above the cursor.
pub proof fn dropped_wf(m: SlotModel, cursor: u64)
    requires
        m.wf(),
    ensures
        m.dropped_to(cursor).wf(),
        m.dropped_to(cursor).live == above(m.live, cursor),
        above(m.live, cursor).dom().len() <= m.live.dom().len(),
        m.dropped_to(cursor) != m && !above(m.live, cursor).is_empty() ==> above(
            m.live,
            cursor,
        ).contains_key(m.dropped_to(cursor).min_seq),
{
    let live = above(m.live, cursor);
    vstd::set_lib::lemma_len_subset(live.dom(), m.live.dom());
    if live.dom().len() == m.live.dom().len() {
        vstd::set_lib::lemma_subset_equality(live.dom(), m.live.dom());
        assert(live =~= m.live);
    } else {
        assert(!m.tombed);
        narrowed_wf(m, live);
    }
}

proof fn kept_contains(s: Seq<u64>, p: spec_fn(u64) -> bool, j: int)
    requires
        0 <= j < s.len(),
        p(s[j]),
    ensures
        s.filter(p).contains(s[j]),
    decreases s.len(),
{
    reveal(Seq::filter);
    let t = s.drop_last();
    if j < t.len() {
        kept_contains(t, p, j);
        let k = choose|k: int| 0 <= k < t.filter(p).len() && t.filter(p)[k] == s[j];
        assert(s.filter(p)[k] == s[j]);
    } else {
        assert(s.filter(p) == t.filter(p).push(s.last()));
        assert(s.filter(p)[t.filter(p).len() as int] == s[j]);
    }
}

proof fn filter_holds(s: Seq<u64>, p: spec_fn(u64) -> bool, j: int)
    requires
        0 <= j < s.filter(p).len(),
    ensures
        p(s.filter(p)[j]),
        s.contains(s.filter(p)[j]),
    decreases s.len(),
{
    reveal(Seq::filter);
    if s.len() > 0 {
        let t = s.drop_last();
        if j < t.filter(p).len() {
            filter_holds(t, p, j);
            let k = choose|k: int| 0 <= k < t.len() && t[k] == s.filter(p)[j];
            assert(s[k] == s.filter(p)[j]);
        }
    }
}

/// Members stay distinct when some are left out.
proof fn filter_distinct(s: Seq<u64>, p: spec_fn(u64) -> bool)
    requires
        s.no_duplicates(),
    ensures
        s.filter(p).no_duplicates(),
    decreases s.len(),
{
    reveal(Seq::filter);
    if s.len() > 0 {
        let t = s.drop_last();
        filter_distinct(t, p);
        assert forall|j: int| 0 <= j < t.filter(p).len() implies t.filter(p)[j] != s.last() by {
            filter_holds(t, p, j);
            let k = choose|k: int| 0 <= k < t.len() && t[k] == t.filter(p)[j];
            assert(s[k] != s[s.len() - 1]);
        }
    }
}

// ── laws ───────────────────────────────────────────────────────────────────
/// The bounds gate never hides a live entry: the probe answers exactly whether
/// the sequence number is live.
pub proof fn seen_is_exact(m: SlotModel, seq: u64)
    requires
        m.wf(),
    ensures
        m.seen(seq) == m.live.contains_key(seq),
        m.fresh(seq) ==> !m.live.contains_key(seq),
{
    if m.live.contains_key(seq) {
        assert(!m.live.is_empty());
    }
}

/// What was just recorded is seen, in whatever order recordings arrive,
/// unless the cap leaves no room at all.
pub proof fn recorded_is_seen(m: SlotModel, seq: u64, now: i64, cap: usize)
    requires
        m.wf(),
        !m.tombed,
        !m.live.contains_key(seq),
        cap > 0,
    ensures
        m.recorded(seq, now, cap).seen(seq),
{
    let p = m.pushed(seq, now);
    let r = m.recorded(seq, now, cap);
    pushed_wf(m, seq, now);
    capped_wf(p, cap);
    let n = p.excess(cap);
    assert(r.fifo[p.fifo.len() - 1 - n] == seq);
    assert(r.fifo.contains(seq));
    seen_is_exact(r, seq);
}

/// A recording pushes out only the oldest, and only what is over the cap: with
/// room left nothing leaves, and at most `cap` entries are ever live.
pub proof fn live_within_cap(m: SlotModel, seq: u64, now: i64, cap: usize)
    requires
        m.wf(),
        !m.tombed,
        !m.live.contains_key(seq),
    ensures
        m.recorded(seq, now, cap).wf(),
        m.recorded(seq, now, cap).live.dom().len() <= cap,
        m.live.dom().len() < cap ==> m.recorded(seq, now, cap) == m.pushed(seq, now),
{
    let p = m.pushed(seq, now);
    pushed_wf(m, seq, now);
    capped_wf(p, cap);
}

/// A cap keeps the latest recordings: of those in the recording order, as many
/// from its end as the cap allows stay, with their times, and the others
/// leave.
pub proof fn cap_keeps_the_latest(m: SlotModel, cap: usize, i: int)
    requires
        m.wf(),
        !m.tombed,
        0 <= i < m.fifo.len(),
    ensures
        m.capped(cap).seen(m.fifo[i]) <==> i >= m.fifo.len() - cap,
        i >= m.fifo.len() - cap ==> m.capped(cap).live[m.fifo[i]] == m.live[m.fifo[i]],
        m.capped(cap).live.dom().len() == if m.live.dom().len() <= cap {
            m.live.dom().len()
        } else {
            cap as nat
        },
{
    let r = m.capped(cap);
    let n = m.excess(cap);
    capped_wf(m, cap);
    live_is_fifo(m);
    live_is_fifo(r);
    seen_is_exact(r, m.fifo[i]);
    assert(m.fifo.contains(m.fifo[i]));
    if i < n {
        assert(m.surplus(cap)[i] == m.fifo[i]);
        assert(m.surplus(cap).to_set().contains(m.fifo[i]));
    } else {
        if m.surplus(cap).contains(m.fifo[i]) {
            let j = choose|j: int| 0 <= j < n && m.surplus(cap)[j] == m.fifo[i];
            assert(m.fifo[j] == m.fifo[i]);
        }
    }
}

/// A recording joins what is live, at the end of the recording order. Where
/// the slot is full, the earliest recording leaves for it, and no other.
pub proof fn recording_replaces_the_earliest(m: SlotModel, seq: u64, now: i64, cap: usize)
    requires
        m.wf(),
        !m.tombed,
        !m.live.contains_key(seq),
        0 < cap,
        m.live.dom().len() <= cap,
    ensures
        m.recorded(seq, now, cap).fifo.last() == seq,
        m.live.dom().len() < cap ==> m.recorded(seq, now, cap).live == m.live.insert(seq, now)
            && m.recorded(seq, now, cap).fifo == m.fifo.push(seq),
        m.live.dom().len() == cap ==> m.recorded(seq, now, cap).live == m.live.remove(
            m.fifo[0],
        ).insert(seq, now) && m.recorded(seq, now, cap).fifo == m.fifo.skip(1).push(seq),
{
    let p = m.pushed(seq, now);
    let r = m.recorded(seq, now, cap);
    pushed_wf(m, seq, now);
    capped_wf(p, cap);
    live_is_fifo(m);
    if m.live.dom().len() == cap {
        assert(p.surplus(cap) =~= seq![m.fifo[0]]);
        assert(m.fifo.contains(m.fifo[0]));
        assert forall|s: u64| p.surplus(cap).to_set().contains(s) == (s == m.fifo[0]) by {
            assert(seq![m.fifo[0]][0] == m.fifo[0]);
        }
        assert(r.live =~= m.live.remove(m.fifo[0]).insert(seq, now));
        assert(r.fifo =~= m.fifo.skip(1).push(seq));
    }
}

/// Confirming forgets one entry and leaves the others as they are, in their
/// order.
pub proof fn confirming_forgets_one(m: SlotModel, seq: u64, s: u64)
    requires
        m.wf(),
    ensures
        m.confirmed(seq).wf(),
        !m.confirmed(seq).seen(seq),
        s != seq ==> m.confirmed(seq).seen(s) == m.seen(s),
        s != seq && m.seen(s) ==> m.confirmed(seq).live[s] == m.live[s],
{
    confirmed_wf(m, seq);
    seen_is_exact(m.confirmed(seq), seq);
    seen_is_exact(m.confirmed(seq), s);
    seen_is_exact(m, s);
}

/// A cursor forgets what is at or below it and leaves the rest as it is.
pub proof fn cursor_forgets_what_is_below(m: SlotModel, cursor: u64, s: u64)
    requires
        m.wf(),
    ensures
        m.dropped_to(cursor).wf(),
        m.dropped_to(cursor).seen(s) <==> m.seen(s) && s > cursor,
        m.dropped_to(cursor).seen(s) ==> m.dropped_to(cursor).live[s] == m.live[s],
{
    dropped_wf(m, cursor);
    seen_is_exact(m.dropped_to(cursor), s);
    seen_is_exact(m, s);
}

/// A slot that comes back from the log recognises exactly what is live in the
/// log, and its bounds are the least and the greatest of it.
pub proof fn replayed_is_seen(live: Map<u64, i64>, s: u64)
    requires
        live.dom().finite(),
    ensures
        SlotModel::replayed(live).seen(s) <==> live.contains_key(s),
        SlotModel::replayed(live).fresh(s) <==> (forall|k: u64| #[trigger]
            live.contains_key(k) ==> k < s) || (forall|k: u64| #[trigger]
            live.contains_key(k) ==> s < k),
{
    crate::ackstore::snapshot::listing_exists(live);
    let m = SlotModel::replayed(live);
    let l = listing(live.dom());
    assert forall|k: u64| #[trigger] live.contains_key(k) implies m.min_seq <= k <= m.max_seq by {
        assert(l.to_set().contains(k));
        let j = choose|j: int| 0 <= j < l.len() && l[j] == k;
    }
    if l.len() > 0 {
        assert(l.to_set().contains(l[0]));
        assert(l.to_set().contains(l.last()));
        assert(live.contains_key(m.min_seq) && live.contains_key(m.max_seq));
        assert(!live.is_empty());
    } else {
        assert forall|k: u64| !#[trigger] live.contains_key(k) by {
            if live.contains_key(k) {
                assert(l.to_set().contains(k));
            }
        }
        assert(live.is_empty()) by {
            assert(live =~= Map::empty());
        }
    }
}

/// As long as nothing has been dropped from a slot, a number is fresh exactly
/// where it is below or above everything recorded.
pub proof fn outside_is_fresh(m: SlotModel, seq: u64, now: i64, s: u64)
    requires
        m.wf(),
        !m.tombed,
        !m.live.contains_key(seq),
        m.live.is_empty() ==> m.max_seq == 0,
        !m.live.is_empty() ==> m.live.contains_key(m.min_seq) && m.live.contains_key(m.max_seq),
    ensures
        ({
            let p = m.pushed(seq, now);
            &&& p.live.contains_key(p.min_seq) && p.live.contains_key(p.max_seq)
            &&& p.fresh(s) <==> (forall|k: u64| #[trigger] p.live.contains_key(k) ==> k < s) || (
            forall|k: u64| #[trigger] p.live.contains_key(k) ==> s < k)
        }),
{
    let p = m.pushed(seq, now);
    pushed_wf(m, seq, now);
    assert(p.live.contains_key(seq));
    assert(!p.live.is_empty());
    if m.live.is_empty() {
        assert(p.min_seq == seq && p.max_seq == seq);
    }
    assert(p.live.contains_key(p.min_seq));
    assert(p.live.contains_key(p.max_seq));
}

} // verus!
