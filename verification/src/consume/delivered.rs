//! What the delivery path asks of a delivered-set store.

use crate::ackstore::live::above;
use crate::ackstore::memory::MemoryStore;
use crate::ackstore::slot::{
    dropped_wf, live_within_cap, recorded_is_seen, seen_is_exact, SlotModel,
};
use crate::ackstore::store::{is_closed_err, Store, StoreError};
use crate::ackstore::table::touched;
use crate::ackstore::wal::Wal;
use vstd::prelude::*;

verus! {

/// A slot after `seq` has been marked as processed.
pub open spec fn marked(m: SlotModel, seq: u64, now: i64, limit: usize) -> SlotModel {
    if m.tombed || m.live.contains_key(seq) {
        m
    } else {
        m.recorded(seq, now, limit)
    }
}

/// An acknowledged message is recognised when it comes again.
pub proof fn marked_is_seen(m: SlotModel, seq: u64, now: i64, limit: usize)
    requires
        m.wf(),
        !m.tombed,
        limit > 0,
    ensures
        marked(m, seq, now, limit).seen(seq),
        marked(m, seq, now, limit).wf(),
{
    if m.live.contains_key(seq) {
        seen_is_exact(m, seq);
    } else {
        recorded_is_seen(m, seq, now, limit);
        live_within_cap(m, seq, now, limit);
    }
}

/// A cursor takes away what it covers and hides nothing else: what is above it
/// is recognised as before, what is at or below it no longer.
pub proof fn cursor_hides_nothing(m: SlotModel, cursor: u64, seq: u64)
    requires
        m.wf(),
    ensures
        m.dropped_to(cursor).wf(),
        m.dropped_to(cursor).seen(seq) == (seq > cursor && m.seen(seq)),
{
    dropped_wf(m, cursor);
    seen_is_exact(m, seq);
    seen_is_exact(m.dropped_to(cursor), seq);
}

/// How many live entries a cursor covers.
pub open spec fn covered(m: SlotModel, cursor: u64) -> int {
    m.live.dom().len() - above(m.live, cursor).dom().len()
}

/// A store whose slots are used by id.
pub trait Delivered: Store {
    spec fn sound(&self) -> bool;

    /// In a sound store every slot is well formed.
    proof fn sound_slots(&self)
        requires
            self.sound(),
        ensures
            self.table().wf(),
    ;

    /// Live entries per slot before the oldest recordings are pushed out.
    spec fn limit(&self) -> usize;

    /// Whether `seq` has been recorded in a slot.
    fn slot_seen(&self, slot: u32, seq: u64) -> (r: bool)
        requires
            self.sound(),
        ensures
            r == self.table().model(slot).seen(seq),
    ;

    /// Mark `seq` as processed. A closed store refuses.
    fn slot_record(&mut self, slot: u32, seq: u64, now: i64) -> (r: Result<(), StoreError>)
        requires
            old(self).sound(),
        ensures
            final(self).sound(),
            final(self).limit() == old(self).limit(),
            final(self).is_closed() == old(self).is_closed(),
            touched(old(self).table(), slot, final(self).table()),
            if old(self).is_closed() {
                is_closed_err(r) && final(self).table().slots@ == old(self).table().slots@
            } else {
                &&& r is Ok
                &&& final(self).table().model(slot) == marked(
                    old(self).table().model(slot),
                    seq,
                    now,
                    old(self).limit(),
                )
            },
    ;

    /// Drop everything at or below the broker's cursor. A closed store
    /// refuses.
    fn slot_confirm_up_to(&mut self, slot: u32, cursor: u64, now: i64) -> (r: Result<
        usize,
        StoreError,
    >)
        requires
            old(self).sound(),
        ensures
            final(self).sound(),
            final(self).limit() == old(self).limit(),
            final(self).is_closed() == old(self).is_closed(),
            touched(old(self).table(), slot, final(self).table()),
            if old(self).is_closed() {
                is_closed_err(r) && final(self).table().slots@ == old(self).table().slots@
            } else {
                &&& r matches Ok(n) && n == covered(old(self).table().model(slot), cursor)
                &&& final(self).table().model(slot) == old(self).table().model(slot).dropped_to(
                    cursor,
                )
            },
    ;
}

impl Delivered for MemoryStore {
    open spec fn sound(&self) -> bool {
        self.slots.wf()
    }

    open spec fn limit(&self) -> usize {
        self.core.cap
    }

    proof fn sound_slots(&self) {
    }

    fn slot_seen(&self, slot: u32, seq: u64) -> (r: bool) {
        self.seen(slot, seq)
    }

    fn slot_record(&mut self, slot: u32, seq: u64, now: i64) -> (r: Result<(), StoreError>)
    {
        self.record(slot, seq, now)
    }

    fn slot_confirm_up_to(&mut self, slot: u32, cursor: u64, now: i64) -> (r: Result<
        usize,
        StoreError,
    >)
    {
        self.confirm_up_to(slot, cursor, now)
    }
}

impl Delivered for Wal {
    open spec fn sound(&self) -> bool {
        self.wf()
    }

    open spec fn limit(&self) -> usize {
        self.core.cfg.max_cap
    }

    proof fn sound_slots(&self) {
    }

    fn slot_seen(&self, slot: u32, seq: u64) -> (r: bool) {
        self.seen(slot, seq)
    }

    fn slot_record(&mut self, slot: u32, seq: u64, now: i64) -> (r: Result<(), StoreError>)
        ensures
            old(self).durable(false) ==> final(self).durable(false),
            old(self).durable(true) ==> final(self).durable(true),
    {
        self.record(slot, seq, now)
    }

    fn slot_confirm_up_to(&mut self, slot: u32, cursor: u64, now: i64) -> (r: Result<
        usize,
        StoreError,
    >)
        ensures
            old(self).durable(false) ==> final(self).durable(false),
            old(self).durable(true) ==> final(self).durable(true),
    {
        self.confirm_up_to(slot, cursor, now)
    }
}

} // verus!
