//! The slots that a store knows, in order of id.

use crate::ackstore::slot::SlotModel;
use crate::ackstore::store::{describes, key_of, Slot, SlotInfo};
use vstd::prelude::*;

verus! {

broadcast use vstd::laws_cmp::group_laws_cmp;

/// Known slots and the next free id.
pub struct SlotTable {
    pub slots: Vec<Slot>,
    pub next_id: u32,
}

impl SlotTable {
    /// Ids ascend below `next_id`, keys differ, and no slot is deleted.
    pub open spec fn wf(&self) -> bool {
        &&& forall|i: int|
            0 <= i < self.slots@.len() ==> {
                &&& (#[trigger] self.slots@[i]).wf()
                &&& !self.slots@[i].state@.tombed
                &&& self.slots@[i].slot_id < self.next_id
            }
        &&& forall|i: int, j: int|
            #![trigger self.slots@[i], self.slots@[j]]
            0 <= i < j < self.slots@.len() ==> self.slots@[i].slot_id < self.slots@[j].slot_id
                && self.slots@[i].key@ != self.slots@[j].key@
    }

    /// The slot with this key is number `i`.
    pub open spec fn key_at(&self, key: Seq<char>, i: int) -> bool {
        0 <= i < self.slots@.len() && self.slots@[i].key@ == key
    }

    pub open spec fn has_key(&self, key: Seq<char>) -> bool {
        exists|i: int| self.key_at(key, i)
    }

    /// The slot with this id is number `i`.
    pub open spec fn id_at(&self, id: u32, i: int) -> bool {
        0 <= i < self.slots@.len() && self.slots@[i].slot_id == id
    }

    pub open spec fn has_id(&self, id: u32) -> bool {
        exists|i: int| self.id_at(id, i)
    }

    /// What is held for an id; a deleted slot's state where nothing is.
    pub open spec fn model(&self, id: u32) -> SlotModel {
        if self.has_id(id) {
            self.slots@[choose|i: int| self.id_at(id, i)].state@
        } else {
            SlotModel::empty().deleted()
        }
    }

    /// Ids are unique, so `model` is about the one slot with that id.
    pub proof fn model_at(&self, i: int)
        requires
            self.wf(),
            0 <= i < self.slots@.len(),
        ensures
            self.has_id(self.slots@[i].slot_id),
            self.model(self.slots@[i].slot_id) == self.slots@[i].state@,
    {
        let id = self.slots@[i].slot_id;
        assert(self.id_at(id, i));
        let k = choose|k: int| self.id_at(id, k);
        if k < i {
            assert(self.slots@[k].slot_id < self.slots@[i].slot_id);
        } else if i < k {
            assert(self.slots@[i].slot_id < self.slots@[k].slot_id);
        }
    }

    pub fn new() -> (r: SlotTable)
        ensures
            r.wf(),
            r.slots@.len() == 0,
            r.next_id == 0,
    {
        SlotTable { slots: Vec::new(), next_id: 0 }
    }

    pub fn find(&self, key: &String) -> (r: Option<usize>)
        ensures
            match r {
                Some(i) => self.key_at(key@, i as int),
                None => !self.has_key(key@),
            },
    {
        let mut i: usize = 0;
        while i < self.slots.len()
            invariant
                i <= self.slots@.len(),
                forall|j: int| 0 <= j < i ==> !self.key_at(key@, j),
            decreases self.slots@.len() - i,
        {
            if self.slots[i].key == *key {
                return Some(i);
            }
            i = i + 1;
        }
        None
    }

    pub fn find_id(&self, id: u32) -> (r: Option<usize>)
        ensures
            match r {
                Some(i) => self.id_at(id, i as int),
                None => !self.has_id(id),
            },
    {
        let mut i: usize = 0;
        while i < self.slots.len()
            invariant
                i <= self.slots@.len(),
                forall|j: int| 0 <= j < i ==> !self.id_at(id, j),
            decreases self.slots@.len() - i,
        {
            if self.slots[i].slot_id == id {
                return Some(i);
            }
            i = i + 1;
        }
        None
    }

    /// Add an empty slot under the next id.
    pub fn add_slot(&mut self, stream: &str, consumer: &str, now: i64) -> (id: u32)
        requires
            old(self).wf(),
            old(self).next_id < u32::MAX,
            !old(self).has_key(key_of(stream@, consumer@)),
        ensures
            final(self).wf(),
            id == old(self).next_id,
            final(self).next_id == old(self).next_id + 1,
            grown(*old(self), stream@, consumer@, now, *final(self)),
    {
        let id: u32 = self.next_id;
        let ghost t0 = *self;
        self.slots.push(Slot::new(id, stream, consumer, now));
        self.next_id = id + 1;
        proof {
            let n = t0.slots@.len() as int;
            assert(self.slots@.take(n) =~= t0.slots@);
            assert forall|i: int| 0 <= i < n implies self.slots@[i].key@
                != self.slots@[n].key@ by {
                assert(!t0.key_at(key_of(stream@, consumer@), i));
            }
            assert forall|i: int| 0 <= i <= n implies (#[trigger] self.slots@[i]).wf()
                && !self.slots@[i].state@.tombed && self.slots@[i].slot_id < self.next_id by {
                if i < n {
                    assert(self.slots@[i] == t0.slots@[i]);
                }
            }
            assert forall|i: int, j: int|
                #![trigger self.slots@[i], self.slots@[j]]
                0 <= i < j <= n implies self.slots@[i].slot_id < self.slots@[j].slot_id
                && self.slots@[i].key@ != self.slots@[j].key@ by {
                assert(self.slots@[i] == t0.slots@[i]);
                if j < n {
                    assert(self.slots@[j] == t0.slots@[j]);
                }
            }
        }
        id
    }

    /// Take a slot out.
    pub fn take_slot(&mut self, i: usize) -> (r: Slot)
        requires
            old(self).wf(),
            i < old(self).slots@.len(),
        ensures
            final(self).wf(),
            r == old(self).slots@[i as int],
            final(self).slots@ == old(self).slots@.remove(i as int),
            final(self).next_id == old(self).next_id,
    {
        let ghost t0 = *self;
        let r = self.slots.remove(i);
        proof {
            let n = self.slots@.len() as int;
            assert forall|k: int| 0 <= k < n implies #[trigger] self.slots@[k]
                == t0.slots@[if k < i { k } else { k + 1 }] by {}
            assert forall|k: int, j: int|
                #![trigger self.slots@[k], self.slots@[j]]
                0 <= k < j < n implies self.slots@[k].slot_id < self.slots@[j].slot_id
                && self.slots@[k].key@ != self.slots@[j].key@ by {
                let a = if k < i { k } else { k + 1 };
                let b = if j < i { j } else { j + 1 };
                assert(t0.slots@[a].slot_id < t0.slots@[b].slot_id);
            }
        }
        r
    }

    /// Metadata of every slot, in order of id.
    pub fn infos(&self) -> (r: Vec<SlotInfo>)
        ensures
            r@.len() == self.slots@.len(),
            forall|i: int|
                0 <= i < r@.len() ==> describes(#[trigger] r@[i], self.slots@[i]),
    {
        let mut out: Vec<SlotInfo> = Vec::new();
        let mut i: usize = 0;
        while i < self.slots.len()
            invariant
                i <= self.slots@.len(),
                out@.len() == i,
                forall|j: int|
                    0 <= j < out@.len() ==> describes(#[trigger] out@[j], self.slots@[j]),
            decreases self.slots@.len() - i,
        {
            out.push(self.slots[i].info());
            i = i + 1;
        }
        out
    }

    /// Number of live entries over all slots (modulo 2^64).
    pub fn live_total(&self) -> (r: u64)
        ensures
            r as nat == live_count(self.slots@) % 0x1_0000_0000_0000_0000,
    {
        let mut sum: u64 = 0;
        let mut i: usize = 0;
        while i < self.slots.len()
            invariant
                i <= self.slots@.len(),
                sum as nat == live_count(self.slots@.take(i as int)) % 0x1_0000_0000_0000_0000,
            decreases self.slots@.len() - i,
        {
            proof {
                assert(self.slots@.take(i + 1).drop_last() =~= self.slots@.take(i as int));
            }
            sum = sum.wrapping_add(self.slots[i].state.set.len() as u64);
            i = i + 1;
        }
        assert(self.slots@.take(i as int) =~= self.slots@);
        sum
    }
}

/// Live entries over all slots.
pub open spec fn live_count(slots: Seq<Slot>) -> nat
    decreases slots.len(),
{
    if slots.len() == 0 {
        0
    } else {
        live_count(slots.drop_last()) + slots.last().state@.live.dom().len()
    }
}

/// `t1` is `t0` with a new, empty slot at the end.
pub open spec fn grown(
    t0: SlotTable,
    stream: Seq<char>,
    consumer: Seq<char>,
    now: i64,
    t1: SlotTable,
) -> bool {
    let n = t0.slots@.len() as int;
    &&& t1.slots@.len() == n + 1
    &&& t1.slots@.take(n) == t0.slots@
    &&& t1.next_id == t0.next_id + 1
    &&& t1.slots@[n].slot_id == t0.next_id
    &&& t1.slots@[n].stream@ == stream
    &&& t1.slots@[n].consumer@ == consumer
    &&& t1.slots@[n].registered_at == now
    &&& t1.slots@[n].state@ == SlotModel::empty()
}

/// `t1` is `t0` but for the state of slot `i`.
pub open spec fn changed_at(t0: SlotTable, i: int, t1: SlotTable) -> bool {
    &&& t1.next_id == t0.next_id
    &&& t1.slots@.len() == t0.slots@.len()
    &&& 0 <= i < t0.slots@.len()
    &&& t1.slots@[i].same_as(&t0.slots@[i])
    &&& forall|j: int| 0 <= j < t0.slots@.len() && j != i ==> t1.slots@[j] == t0.slots@[j]
}

/// Changing one slot's state keeps a table well formed.
pub proof fn changed_wf(t0: SlotTable, i: int, t1: SlotTable)
    requires
        t0.wf(),
        changed_at(t0, i, t1),
        t1.slots@[i].wf(),
        !t1.slots@[i].state@.tombed,
    ensures
        t1.wf(),
        forall|id: u32| t1.has_id(id) == t0.has_id(id),
        t1.model(t0.slots@[i].slot_id) == t1.slots@[i].state@,
        forall|id: u32| id != t0.slots@[i].slot_id ==> t1.model(id) == t0.model(id),
{
    assert(t1.wf());
    assert forall|id: u32| t1.has_id(id) == t0.has_id(id) by {
        if t0.has_id(id) {
            let k = choose|k: int| t0.id_at(id, k);
            assert(t1.id_at(id, k));
        }
        if t1.has_id(id) {
            let k = choose|k: int| t1.id_at(id, k);
            assert(t0.id_at(id, k));
        }
    }
    t1.model_at(i);
    assert forall|id: u32| id != t0.slots@[i].slot_id implies t1.model(id) == t0.model(id) by {
        if t0.has_id(id) {
            let k = choose|k: int| t0.id_at(id, k);
            t0.model_at(k);
            t1.model_at(k);
        }
    }
}

/// There is nothing to confirm in a deleted slot.
pub proof fn gone_stays(t: SlotTable, id: u32, seq: u64)
    requires
        !t.has_id(id),
    ensures
        t.model(id).confirmed(seq) == t.model(id),
        t.model(id).wf(),
{
    let m = t.model(id);
    m.fifo.index_of_first_ensures(seq);
    assert(m.confirmed(seq) =~= m);
}

/// `t1` is `t0` but for the state of the slot with this id.
pub open spec fn touched(t0: SlotTable, id: u32, t1: SlotTable) -> bool {
    &&& t1.next_id == t0.next_id
    &&& t1.slots@.len() == t0.slots@.len()
    &&& forall|i: int|
        0 <= i < t0.slots@.len() ==> {
            &&& (#[trigger] t1.slots@[i]).same_as(&t0.slots@[i])
            &&& t0.slots@[i].slot_id != id ==> t1.slots@[i] == t0.slots@[i]
        }
}

/// The live entries of a list of slots add up: those of two lists together are
/// those of one and those of the other, and a slot counts what is live in it.
pub proof fn live_entries_add_up(a: Seq<Slot>, b: Seq<Slot>, s: Slot)
    ensures
        live_count(a + b) == live_count(a) + live_count(b),
        live_count(seq![s]) == s.state@.live.dom().len(),
    decreases b.len(),
{
    reveal_with_fuel(live_count, 2);
    assert(seq![s].drop_last() =~= Seq::<Slot>::empty());
    if b.len() == 0 {
        assert(a + b =~= a);
    } else {
        live_entries_add_up(a, b.drop_last(), s);
        assert((a + b).drop_last() =~= a + b.drop_last());
    }
}

} // verus!
