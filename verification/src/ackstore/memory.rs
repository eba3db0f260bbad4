//! Store without persistence: for clients that need no memory across
//! restarts, since the broker redelivers what was not acknowledged.

use crate::ackstore::live::above;
use crate::ackstore::slot::dropped_wf;
use crate::ackstore::store::{
    describes, is_closed_err, key_of, slot_key, Metrics, Slot, SlotInfo, SlotRef, Store, StoreError,
    SyncNext, MAX_NAME_LEN,
};
use crate::ackstore::table::{changed_wf, gone_stays, grown, touched, SlotTable};
use crate::text::byte_len;
use vstd::prelude::*;

verus! {

broadcast use vstd::laws_cmp::group_laws_cmp;

/// The counters of a memory store and the cap on each slot's live set.
#[derive(Debug, Clone, Copy)]
pub struct MemCore {
    pub cap: usize,
    pub recorded: u64,
    pub confirmed: u64,
    pub registered: u64,
    pub tombstoned: u64,
    pub closed: bool,
}

/// A recording in this slot counts as one.
pub open spec fn is_new(core: MemCore, slot: Slot, seq: u64) -> bool {
    !core.closed && !slot.state@.tombed && !slot.state@.live.contains_key(seq)
}

impl SlotRef for MemCore {
    open spec fn cap(&self) -> usize {
        self.cap
    }

    open spec fn closed(&self) -> bool {
        self.closed
    }

    fn fresh(&self, slot: &Slot, seq: u64) -> (r: bool) {
        slot.state.fresh(seq)
    }

    fn seen(&self, slot: &Slot, seq: u64) -> (r: bool) {
        slot.state.seen(seq)
    }

    fn check_record(&mut self, slot: &mut Slot, seq: u64, now: i64) -> (r: Result<
        bool,
        StoreError,
    >)
        ensures
            *final(self) == (MemCore {
                recorded: if is_new(*old(self), *old(slot), seq) {
                    old(self).recorded.wrapping_add(1)
                } else {
                    old(self).recorded
                },
                ..*old(self)
            }),
    {
        if self.closed {
            return Err(StoreError::Closed);
        }
        if slot.state.tombed {
            return Ok(true);
        }
        if slot.state.set.contains_key(&seq) {
            return Ok(false);
        }
        slot.state.insert(seq, now, self.cap);
        self.recorded = self.recorded.wrapping_add(1);
        Ok(true)
    }

    fn record(&mut self, slot: &mut Slot, seq: u64, now: i64) -> (r: Result<(), StoreError>)
        ensures
            *final(self) == (MemCore {
                recorded: if is_new(*old(self), *old(slot), seq) {
                    old(self).recorded.wrapping_add(1)
                } else {
                    old(self).recorded
                },
                ..*old(self)
            }),
    {
        match self.check_record(slot, seq, now) {
            Ok(_) => Ok(()),
            Err(e) => Err(e),
        }
    }

    fn confirm(&mut self, slot: &mut Slot, seq: u64, now: i64) -> (r: Result<(), StoreError>)
        ensures
            *final(self) == (MemCore {
                confirmed: if !old(self).closed && old(slot).state@.live.contains_key(seq) {
                    old(self).confirmed.wrapping_add(1)
                } else {
                    old(self).confirmed
                },
                ..*old(self)
            }),
    {
        if self.closed {
            return Err(StoreError::Closed);
        }
        if slot.state.confirm(seq) {
            self.confirmed = self.confirmed.wrapping_add(1);
        }
        Ok(())
    }

    fn confirm_up_to(&mut self, slot: &mut Slot, cursor: u64, now: i64) -> (r: Result<
        usize,
        StoreError,
    >)
        ensures
            *final(self) == (match r {
                Ok(n) => MemCore {
                    confirmed: old(self).confirmed.wrapping_add(n as u64),
                    ..*old(self)
                },
                Err(_) => *old(self),
            }),
    {
        if self.closed {
            return Err(StoreError::Closed);
        }
        let removed: usize = slot.state.drop_to(cursor);
        self.confirmed = self.confirmed.wrapping_add(removed as u64);
        Ok(removed)
    }

    fn info(&self, slot: &Slot) -> (r: SlotInfo) {
        slot.info()
    }
}

/// A delivered-set store that lives as long as the process.
pub struct MemoryStore {
    pub core: MemCore,
    pub slots: SlotTable,
}

impl MemoryStore {
    /// `cap` bounds each slot's live set; `0` stands for a million.
    pub fn new(cap: usize) -> (r: MemoryStore)
        ensures
            r.table().wf(),
            r.table().slots@.len() == 0,
            r.table().next_id == 0,
            r.core == (MemCore {
                cap: if cap == 0 {
                    1_000_000
                } else {
                    cap
                },
                recorded: 0,
                confirmed: 0,
                registered: 0,
                tombstoned: 0,
                closed: false,
            }),
    {
        let cap: usize = if cap == 0 {
            1_000_000
        } else {
            cap
        };
        MemoryStore {
            core: MemCore {
                cap,
                recorded: 0,
                confirmed: 0,
                registered: 0,
                tombstoned: 0,
                closed: false,
            },
            slots: SlotTable::new(),
        }
    }
}

impl MemoryStore {
    /// The bounds gate of a slot.
    pub fn fresh(&self, slot: u32, seq: u64) -> (r: bool)
        requires
            self.slots.wf(),
        ensures
            r == self.slots.model(slot).fresh(seq),
    {
        match self.slots.find_id(slot) {
            Some(i) => {
                proof {
                    self.slots.model_at(i as int);
                }
                self.core.fresh(&self.slots.slots[i], seq)
            },
            None => true,
        }
    }

    /// Whether `seq` has been recorded in a slot.
    pub fn seen(&self, slot: u32, seq: u64) -> (r: bool)
        requires
            self.slots.wf(),
        ensures
            r == self.slots.model(slot).seen(seq),
    {
        match self.slots.find_id(slot) {
            Some(i) => {
                proof {
                    self.slots.model_at(i as int);
                }
                self.core.seen(&self.slots.slots[i], seq)
            },
            None => false,
        }
    }

    /// Test and set. `true` and recorded when new, `false` for a duplicate. A
    /// deleted slot reports everything as new and records nothing. A closed
    /// store refuses.
    pub fn check_record(&mut self, slot: u32, seq: u64, now: i64) -> (r: Result<bool, StoreError>)
        requires
            old(self).slots.wf(),
        ensures
            final(self).slots.wf(),
            touched(old(self).slots, slot, final(self).slots),
            ({
                let m = old(self).slots.model(slot);
                if old(self).core.closed {
                    is_closed_err(r) && final(self).slots.slots@ == old(self).slots.slots@
                        && final(self).core == old(self).core
                } else if m.tombed || m.live.contains_key(seq) {
                    &&& r == Ok::<bool, StoreError>(m.tombed)
                    &&& final(self).slots.slots@ == old(self).slots.slots@
                    &&& final(self).slots.model(slot) == m
                    &&& final(self).core == old(self).core
                } else {
                    &&& r == Ok::<bool, StoreError>(true)
                    &&& final(self).slots.model(slot) == m.recorded(seq, now, old(self).core.cap)
                    &&& final(self).core == (MemCore {
                        recorded: old(self).core.recorded.wrapping_add(1),
                        ..old(self).core
                    })
                }
            }),
    {
        if self.core.closed {
            return Err(StoreError::Closed);
        }
        match self.slots.find_id(slot) {
            Some(i) => {
                let ghost t0 = self.slots;
                proof {
                    self.slots.model_at(i as int);
                }
                let r = self.core.check_record(&mut self.slots.slots[i], seq, now);
                proof {
                    changed_wf(t0, i as int, self.slots);
                    if t0.model(slot).live.contains_key(seq) {
                        assert(self.slots.slots@ =~= t0.slots@);
                    }
                }
                r
            },
            None => Ok(true),
        }
    }

    /// Mark `seq` as processed. Idempotent.
    pub fn record(&mut self, slot: u32, seq: u64, now: i64) -> (r: Result<(), StoreError>)
        requires
            old(self).slots.wf(),
        ensures
            final(self).slots.wf(),
            touched(old(self).slots, slot, final(self).slots),
            ({
                let m = old(self).slots.model(slot);
                if old(self).core.closed {
                    is_closed_err(r) && final(self).slots.slots@ == old(self).slots.slots@
                        && final(self).core == old(self).core
                } else if m.tombed || m.live.contains_key(seq) {
                    &&& r is Ok
                    &&& final(self).slots.slots@ == old(self).slots.slots@
                    &&& final(self).slots.model(slot) == m
                    &&& final(self).core == old(self).core
                } else {
                    &&& r is Ok
                    &&& final(self).slots.model(slot) == m.recorded(seq, now, old(self).core.cap)
                    &&& final(self).core == (MemCore {
                        recorded: old(self).core.recorded.wrapping_add(1),
                        ..old(self).core
                    })
                }
            }),
    {
        match self.check_record(slot, seq, now) {
            Ok(_) => Ok(()),
            Err(e) => Err(e),
        }
    }

    /// The broker has the ack of `seq`: drop it.
    pub fn confirm(&mut self, slot: u32, seq: u64, now: i64) -> (r: Result<(), StoreError>)
        requires
            old(self).slots.wf(),
        ensures
            final(self).slots.wf(),
            touched(old(self).slots, slot, final(self).slots),
            if old(self).core.closed {
                is_closed_err(r) && final(self).slots.slots@ == old(self).slots.slots@
                    && final(self).core == old(self).core
            } else {
                &&& r is Ok
                &&& final(self).slots.model(slot) == old(self).slots.model(slot).confirmed(seq)
                &&& final(self).core == (MemCore {
                    confirmed: if old(self).slots.model(slot).live.contains_key(seq) {
                        old(self).core.confirmed.wrapping_add(1)
                    } else {
                        old(self).core.confirmed
                    },
                    ..old(self).core
                })
            },
    {
        if self.core.closed {
            return Err(StoreError::Closed);
        }
        match self.slots.find_id(slot) {
            Some(i) => {
                let ghost t0 = self.slots;
                proof {
                    self.slots.model_at(i as int);
                }
                let r = self.core.confirm(&mut self.slots.slots[i], seq, now);
                proof {
                    changed_wf(t0, i as int, self.slots);
                }
                r
            },
            None => {
                proof {
                    gone_stays(self.slots, slot, seq);
                }
                Ok(())
            },
        }
    }

    /// Drop everything at or below the broker's cursor; returns how many
    /// entries that were.
    pub fn confirm_up_to(&mut self, slot: u32, cursor: u64, now: i64) -> (r: Result<
        usize,
        StoreError,
    >)
        requires
            old(self).slots.wf(),
        ensures
            final(self).slots.wf(),
            touched(old(self).slots, slot, final(self).slots),
            ({
                let m = old(self).slots.model(slot);
                if old(self).core.closed {
                    is_closed_err(r) && final(self).slots.slots@ == old(self).slots.slots@
                        && final(self).core == old(self).core
                } else {
                    &&& r matches Ok(n)
                    &&& n == m.live.dom().len() - above(m.live, cursor).dom().len()
                    &&& final(self).slots.model(slot) == m.dropped_to(cursor)
                    &&& final(self).slots.model(slot).live == above(m.live, cursor)
                    &&& final(self).core == (MemCore {
                        confirmed: old(self).core.confirmed.wrapping_add(n as u64),
                        ..old(self).core
                    })
                }
            }),
    {
        if self.core.closed {
            return Err(StoreError::Closed);
        }
        match self.slots.find_id(slot) {
            Some(i) => {
                let ghost t0 = self.slots;
                proof {
                    self.slots.model_at(i as int);
                }
                let r = self.core.confirm_up_to(&mut self.slots.slots[i], cursor, now);
                proof {
                    changed_wf(t0, i as int, self.slots);
                }
                r
            },
            None => {
                proof {
                    let m = self.slots.model(slot);
                    dropped_wf(m, cursor);
                    assert(above(m.live, cursor) =~= m.live);
                }
                Ok(0)
            },
        }
    }
}

impl Store for MemoryStore {
    open spec fn table(&self) -> SlotTable {
        self.slots
    }

    open spec fn is_closed(&self) -> bool {
        self.core.closed
    }

    fn slot(&mut self, stream: &str, consumer: &str, now: i64) -> (r: Result<u32, StoreError>)
        ensures
            grown(old(self).table(), stream@, consumer@, now, final(self).table()) ==> r is Ok
                && final(self).core == (MemCore {
                registered: old(self).core.registered.wrapping_add(1),
                ..old(self).core
            }),
            final(self).table() == old(self).table() ==> final(self).core == old(self).core,
    {
        if self.core.closed {
            return Err(StoreError::Closed);
        }
        if byte_len(stream) > MAX_NAME_LEN || byte_len(consumer) > MAX_NAME_LEN {
            return Err(StoreError::NameTooLong);
        }
        let key = slot_key(stream, consumer);
        if let Some(i) = self.slots.find(&key) {
            assert(self.slots.key_at(key@, i as int));
            return Ok(self.slots.slots[i].slot_id);
        }
        if self.slots.next_id == u32::MAX {
            return Err(StoreError::SlotOverflow);
        }
        let id: u32 = self.slots.add_slot(stream, consumer, now);
        self.core.registered = self.core.registered.wrapping_add(1);
        Ok(id)
    }

    fn sync(&mut self, io: Result<(), String>, now: i64) -> (r: Result<SyncNext, StoreError>)
        ensures
            !old(self).core.closed ==> r == Ok::<SyncNext, StoreError>(SyncNext::Done),
            *final(self) == *old(self),
    {
        if self.core.closed {
            return Err(StoreError::Closed);
        }
        Ok(SyncNext::Done)
    }

    fn restore(&self) -> (r: Result<(), StoreError>) {
        if self.core.closed {
            return Err(StoreError::Closed);
        }
        Ok(())
    }

    fn close(&mut self, io: Result<(), String>) -> (r: Result<(), StoreError>)
        ensures
            r is Ok,
            final(self).slots == old(self).slots,
            final(self).core == (MemCore { closed: true, ..old(self).core }),
    {
        self.core.closed = true;
        Ok(())
    }

    fn list_slots(&self) -> (r: Vec<SlotInfo>) {
        self.slots.infos()
    }

    fn slot_info(&self, stream: &str, consumer: &str) -> (r: Option<SlotInfo>) {
        match self.slots.find(&slot_key(stream, consumer)) {
            Some(i) => {
                let info = self.slots.slots[i].info();
                assert(self.table().key_at(key_of(stream@, consumer@), i as int));
                assert(describes(info, self.table().slots@[i as int]));
                Some(info)
            },
            None => None,
        }
    }

    fn delete_slot(&mut self, stream: &str, consumer: &str, now: i64) -> (r: Result<
        (),
        StoreError,
    >)
        ensures
            final(self).core == (MemCore {
                tombstoned: if r is Ok {
                    old(self).core.tombstoned.wrapping_add(1)
                } else {
                    old(self).core.tombstoned
                },
                ..old(self).core
            }),
    {
        if self.core.closed {
            return Err(StoreError::Closed);
        }
        let key = slot_key(stream, consumer);
        match self.slots.find(&key) {
            None => Err(StoreError::UnknownSlot),
            Some(i) => {
                assert(self.slots.key_at(key@, i as int));
                let _gone = self.slots.take_slot(i);
                self.core.tombstoned = self.core.tombstoned.wrapping_add(1);
                Ok(())
            },
        }
    }

    fn metrics(&self) -> (r: Metrics)
        ensures
            r.recorded == self.core.recorded,
            r.confirmed == self.core.confirmed,
            r.registered == self.core.registered,
            r.tombstoned == self.core.tombstoned,
            r.expired == 0,
            r.sync_errors == 0,
            r.file_size == 0,
            r.last_sync_ms == 0,
            r.last_snapshot_ms == 0,
    {
        Metrics {
            slots: self.slots.slots.len(),
            live_entries: self.slots.live_total(),
            recorded: self.core.recorded,
            confirmed: self.core.confirmed,
            expired: 0,
            registered: self.core.registered,
            tombstoned: self.core.tombstoned,
            sync_errors: 0,
            file_size: 0,
            last_sync_ms: 0,
            last_snapshot_ms: 0,
        }
    }
}

} // verus!
