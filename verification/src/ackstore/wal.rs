//! The log-backed store.

use crate::ackstore::durable::{
    covers, covers_expired, covers_live_op, covers_orphan_op, covers_recorded, covers_register,
    covers_tombstone, expire_frames_complete, holds_slot, seq_op_applies,
};
use crate::ackstore::format::{
    encode_register, frame, record_of, register_frame_size, register_payload, register_round_trip,
    seq_payload, tombstone_payload, tombstone_round_trip, LogRecord, FILE_MAGIC, OP_CONFIRM,
    OP_CONFIRM_UP_TO,
};
use crate::ackstore::live::above;
use crate::ackstore::replay::{
    append_applies, complete, scan, scan_bytes, truncation_is_harmless, ReplayModel, Replayed,
};
use crate::ackstore::restart::opened_is_durable;
use crate::ackstore::slot::{
    capped_wf, dropped_wf, live_within_cap, recorded_is_seen, SlotModel, SlotState,
};
use crate::ackstore::snapshot::{snapshot_frames, snapshots_fit};
use crate::ackstore::store::{
    describes, is_closed_err, key_of, slot_key, MAX_NAME_LEN, Metrics, Slot, SlotInfo, SlotRef,
    Store, StoreError, SyncNext,
};
use crate::ackstore::table::{changed_wf, gone_stays, grown, touched, SlotTable};
use crate::ackstore::wal_core::{
    appended, expire_frames, logged, one_more_recorded, record_frames, Counters, WalConfig, WalCore,
};
use crate::le::le_bytes_len;
use crate::ordered::{lists32, sorted_keys32};
use crate::text::{byte_len, text_round_trip};
use vstd::prelude::*;
use vstd::utf8::encode_utf8;

verus! {

broadcast use {vstd::laws_cmp::group_laws_cmp, le_bytes_len};

/// The smallest id above every id that a replayed state mentions.
pub open spec fn is_next_id(st: ReplayModel, n: u32) -> bool {
    &&& forall|id: u32|
        #![trigger st.slots.contains_key(id)]
        #![trigger st.names.contains_key(id)]
        st.slots.contains_key(id) || st.names.contains_key(id) ==> id < n
    &&& n == 0 || st.slots.contains_key((n - 1) as u32) || st.names.contains_key((n - 1) as u32)
}

/// What is kept of a slot under a cap, or without one.
pub open spec fn kept_under(m: SlotModel, cap: Option<usize>) -> SlotModel {
    match cap {
        Some(c) => m.capped(c),
        None => m,
    }
}

/// A slot as it comes back from the log, with at most `cap` live entries.
pub open spec fn came_back(st: ReplayModel, s: Slot, now: i64, cap: Option<usize>) -> bool {
    &&& st.slots.contains_key(s.slot_id)
    &&& st.names.contains_key(s.slot_id)
    &&& st.names[s.slot_id] == (s.stream@, s.consumer@)
    &&& s.registered_at == now
    &&& s.state@ == kept_under(SlotModel::replayed(st.slots[s.slot_id]), cap)
}

/// A table rebuilt from the log: every slot with a name, under the greatest of
/// the ids that carry that name, with at most `cap` live entries.
pub open spec fn restored(st: ReplayModel, now: i64, t: SlotTable, cap: Option<usize>) -> bool {
    &&& t.wf()
    &&& is_next_id(st, t.next_id)
    &&& forall|i: int| 0 <= i < t.slots@.len() ==> came_back(st, #[trigger] t.slots@[i], now, cap)
    &&& forall|id: u32|
        st.slots.contains_key(id) && #[trigger] st.names.contains_key(id) ==> represented(
            t,
            key_of(st.names[id].0, st.names[id].1),
            id,
        )
}

/// The table knows this key, under `id` or a greater one.
pub open spec fn represented(t: SlotTable, key: Seq<char>, id: u32) -> bool {
    exists|i: int| #[trigger] t.key_at(key, i) && t.slots@[i].slot_id >= id
}

/// Put a slot that came back into the table, in place of one with its key.
fn put_back(t: &mut SlotTable, s: Slot)
    requires
        old(t).wf(),
        s.wf(),
        !s.state@.tombed,
        s.slot_id < old(t).next_id,
        forall|i: int|
            0 <= i < old(t).slots@.len() ==> (#[trigger] old(t).slots@[i]).slot_id < s.slot_id,
    ensures
        final(t).wf(),
        final(t).next_id == old(t).next_id,
        forall|i: int|
            0 <= i < final(t).slots@.len() ==> (#[trigger] final(t).slots@[i]) == s || exists|
                j: int,
            |
                0 <= j < old(t).slots@.len() && final(t).slots@[i] == #[trigger] old(t).slots@[j],
        forall|key: Seq<char>, id: u32|
            (#[trigger] represented(*old(t), key, id)) ==> represented(*final(t), key, id),
        represented(*final(t), s.key@, s.slot_id),
        forall|i: int|
            0 <= i < final(t).slots@.len() ==> (#[trigger] final(t).slots@[i]).slot_id
                <= s.slot_id,
{
    let ghost t0 = *t;
    let ghost key = s.key@;
    let found = t.find(&s.key);
    if let Some(i) = found {
        let _old = t.take_slot(i);
    }
    let ghost t1 = *t;
    proof {
        assert forall|k: int| 0 <= k < t1.slots@.len() implies (#[trigger] t1.slots@[k]).slot_id
            < s.slot_id && t1.slots@[k].key@ != key && exists|j: int|
            0 <= j < t0.slots@.len() && t1.slots@[k] == #[trigger] t0.slots@[j] by {
            match found {
                Some(i) => {
                    let j = if k < i { k } else { k + 1 };
                    assert(t1.slots@[k] == t0.slots@[j]);
                    assert(t0.slots@[i as int].key@ == key);
                    if j < i {
                        assert(t0.slots@[j].key@ != t0.slots@[i as int].key@);
                    } else {
                        assert(t0.slots@[i as int].key@ != t0.slots@[j].key@);
                    }
                },
                None => {
                    assert(!t0.key_at(key, k));
                    assert(t1.slots@[k] == t0.slots@[k]);
                },
            }
        }
    }
    t.slots.push(s);
    proof {
        let n = t1.slots@.len() as int;
        assert forall|k: int| 0 <= k < n implies t.slots@[k] == t1.slots@[k] by {}
        assert(t.wf()) by {
            assert forall|a: int, b: int|
                #![trigger t.slots@[a], t.slots@[b]]
                0 <= a < b < t.slots@.len() implies t.slots@[a].slot_id < t.slots@[b].slot_id
                && t.slots@[a].key@ != t.slots@[b].key@ by {
                assert(t.slots@[a] == t1.slots@[a]);
                if b < n {
                    assert(t.slots@[b] == t1.slots@[b]);
                }
            }
        }
        assert(t.key_at(key, n));
        assert forall|k2: Seq<char>, id: u32| #[trigger]
            represented(t0, k2, id) implies represented(*t, k2, id) by {
            let j = choose|j: int| #[trigger] t0.key_at(k2, j) && t0.slots@[j].slot_id >= id;
            if k2 == key {
                assert(t0.slots@[j].slot_id < s.slot_id);
                assert(t.key_at(k2, n) && t.slots@[n].slot_id >= id);
            } else {
                match found {
                    Some(i) => {
                        assert(j != i);
                        let k = if j < i { j } else { j - 1 };
                        assert(t.slots@[k] == t0.slots@[j]);
                        assert(t.key_at(k2, k));
                    },
                    None => {
                        assert(t.key_at(k2, j));
                    },
                }
            }
        }
    }
}

/// The smallest id above every id mentioned; `None` where there is none left.
fn next_id_of(st: &Replayed) -> (r: Option<u32>)
    ensures
        match r {
            Some(n) => is_next_id(st@, n),
            None => st@.slots.contains_key(u32::MAX) || st@.names.contains_key(u32::MAX),
        },
{
    let a = sorted_keys32(&st.slots);
    let b = sorted_keys32(&st.names);
    proof {
        assert(st@.slots.dom() =~= st.slots@.dom());
        assert(st@.names.dom() =~= st.names@.dom());
    }
    let mut n: u32 = 0;
    if a.len() > 0 {
        let last: u32 = a[a.len() - 1];
        assert(a@.to_set().contains(last));
        assert(st@.slots.contains_key(last));
        if last == u32::MAX {
            return None;
        }
        n = last + 1;
    }
    proof {
        assert forall|id: u32| st@.slots.contains_key(id) implies id < n by {
            assert(a@.to_set().contains(id));
            let j = choose|j: int| 0 <= j < a@.len() && a@[j] == id;
        }
    }
    if b.len() > 0 {
        let last: u32 = b[b.len() - 1];
        assert(b@.to_set().contains(last));
        assert(st@.names.contains_key(last));
        if last == u32::MAX {
            return None;
        }
        if last >= n {
            n = last + 1;
        }
    }
    proof {
        assert forall|id: u32| st@.names.contains_key(id) implies id < n by {
            assert(b@.to_set().contains(id));
            let j = choose|j: int| 0 <= j < b@.len() && b@[j] == id;
        }
    }
    Some(n)
}

/// Rebuild the table from a replayed state.
fn materialize(st: Replayed, next_id: u32, now: i64) -> (t: SlotTable)
    requires
        is_next_id(st@, next_id),
    ensures
        restored(st@, now, t, None),
        t.next_id == next_id,
{
    let ghost st0 = st@;
    let mut st = st;
    let mut t = SlotTable { slots: Vec::new(), next_id };
    let ids = sorted_keys32(&st.slots);
    assert(st0.slots.dom() =~= st.slots@.dom());
    let mut k: usize = 0;
    while k < ids.len()
        invariant
            k <= ids@.len(),
            lists32(ids@, st0.slots.dom()),
            is_next_id(st0, next_id),
            t.next_id == next_id,
            t.wf(),
            st@.names == st0.names,
            forall|j: int| k <= j < ids@.len() ==> st@.slots.contains_key(#[trigger] ids@[j])
                && st@.slots[ids@[j]] == st0.slots[ids@[j]],
            forall|i: int|
                0 <= i < t.slots@.len() ==> came_back(st0, #[trigger] t.slots@[i], now, None),
            forall|i: int, j: int|
                0 <= i < t.slots@.len() && k <= j < ids@.len() ==> (#[trigger] t.slots@[i]).slot_id
                    < #[trigger] ids@[j],
            forall|j: int|
                0 <= j < k && st0.names.contains_key(#[trigger] ids@[j]) ==> represented(
                    t,
                    key_of(st0.names[ids@[j]].0, st0.names[ids@[j]].1),
                    ids@[j],
                ),
        decreases ids@.len() - k,
    {
        let id: u32 = ids[k];
        let ghost t0 = t;
        assert(ids@.to_set().contains(id));
        assert(st0.slots.contains_key(id));
        assert(st@.slots.contains_key(id));
        let live = st.slots.remove(&id).unwrap();
        proof {
            assert(live@ == st0.slots[id]);
            assert forall|j: int| k + 1 <= j < ids@.len() implies st@.slots.contains_key(
                #[trigger] ids@[j],
            ) && st@.slots[ids@[j]] == st0.slots[ids@[j]] by {
                assert(ids@[j] != id);
            }
            assert(st@.names =~= st0.names);
        }
        if let Some(name) = st.names.get(&id) {
            assert(st@.names.contains_key(id));
            let mut s = Slot::new(id, name.0.as_str(), name.1.as_str(), now);
            s.state = SlotState::from_live(live);
            let ghost sg = s;
            assert(id < next_id);
            put_back(&mut t, s);
            proof {
                assert forall|i: int| 0 <= i < t.slots@.len() implies came_back(
                    st0,
                    #[trigger] t.slots@[i],
                    now,
                    None,
                ) by {
                    if t.slots@[i] != sg {
                        let j = choose|j: int|
                            0 <= j < t0.slots@.len() && t.slots@[i] == #[trigger] t0.slots@[j];
                        assert(came_back(st0, t0.slots@[j], now, None));
                    }
                }
            }
        } else {
            assert(!st@.names.contains_key(id));
        }
        proof {
            assert forall|i: int, j: int|
                0 <= i < t.slots@.len() && k + 1 <= j < ids@.len() implies (#[trigger]
            t.slots@[i]).slot_id < #[trigger] ids@[j] by {
                assert(id < ids@[j]);
                if st0.names.contains_key(id) {
                    assert(t.slots@[i].slot_id <= id);
                }
            }
            assert forall|j: int|
                0 <= j < k + 1 && st0.names.contains_key(#[trigger] ids@[j]) implies represented(
                t,
                key_of(st0.names[ids@[j]].0, st0.names[ids@[j]].1),
                ids@[j],
            ) by {
                if j < k {
                    assert(represented(
                        t0,
                        key_of(st0.names[ids@[j]].0, st0.names[ids@[j]].1),
                        ids@[j],
                    ));
                }
            }
        }
        k = k + 1;
    }
    proof {
        assert forall|id: u32|
            st0.slots.contains_key(id) && #[trigger] st0.names.contains_key(id) implies represented(
            t,
            key_of(st0.names[id].0, st0.names[id].1),
            id,
        ) by {
            assert(ids@.to_set().contains(id));
            let j = choose|j: int| 0 <= j < ids@.len() && ids@[j] == id;
            assert(st0.names.contains_key(ids@[j]));
        }
    }
    t
}

/// The log-backed delivered-set store.
pub struct Wal {
    pub core: WalCore,
    pub slots: SlotTable,
}

/// No two ids of a replayed state carry the same name.
pub open spec fn distinct_keys(st: ReplayModel) -> bool {
    forall|a: u32, b: u32| #[trigger]
        st.names.contains_key(a) && #[trigger] st.names.contains_key(b) && key_of(
            st.names[a].0,
            st.names[a].1,
        ) == key_of(st.names[b].0, st.names[b].1) ==> a == b
}

/// Expire frames for what a list of slots holds over the cap.
pub open spec fn trim_frames(slots: Seq<Slot>, cap: usize, now: i64) -> Seq<u8>
    decreases slots.len(),
{
    if slots.len() == 0 {
        Seq::empty()
    } else {
        let s = slots.last();
        trim_frames(slots.drop_last(), cap, now) + expire_frames(
            s.slot_id,
            now,
            s.state@.surplus(cap),
        )
    }
}

/// Expire frames for what the log holds over the cap of a list of slots.
pub open spec fn forgotten(st: ReplayModel, slots: Seq<Slot>, cap: usize, now: i64) -> Seq<u8>
    decreases slots.len(),
{
    if slots.len() == 0 {
        Seq::empty()
    } else {
        let id = slots.last().slot_id;
        forgotten(st, slots.drop_last(), cap, now) + expire_frames(
            id,
            now,
            SlotModel::replayed(st.slots[id]).surplus(cap),
        )
    }
}

/// The two say the same of slots that hold all that the log does.
proof fn trimmed_is_forgotten(
    st: ReplayModel,
    s0: Seq<Slot>,
    s1: Seq<Slot>,
    cap: usize,
    now: i64,
)
    requires
        s0.len() == s1.len(),
        forall|i: int|
            0 <= i < s0.len() ==> (#[trigger] s0[i]).slot_id == s1[i].slot_id && s0[i].state@
                == SlotModel::replayed(st.slots[s0[i].slot_id]),
    ensures
        trim_frames(s0, cap, now) == forgotten(st, s1, cap, now),
    decreases s0.len(),
{
    if s0.len() > 0 {
        assert(s0.last() == s0[s0.len() - 1]);
        trimmed_is_forgotten(st, s0.drop_last(), s1.drop_last(), cap, now);
    }
}

impl Wal {
    /// No slot holds more than the cap.
    pub open spec fn cap_ok(&self) -> bool {
        forall|i: int|
            0 <= i < self.slots.slots@.len() ==> (
            #[trigger] self.slots.slots@[i]).state@.live.dom().len() <= self.core.cfg.max_cap
    }

    /// The table is well formed, no slot is over the cap, and the recorded
    /// size is that of the log.
    pub open spec fn wf(&self) -> bool {
        self.slots.wf() && self.core.size_ok() && self.cap_ok()
    }

    /// The log is valid to its last byte, and replaying it would bring back
    /// every known slot with every live entry; with `exact`, nothing else.
    pub open spec fn durable(&self, exact: bool) -> bool {
        &&& complete(self.core.log@)
        &&& covers(scan(self.core.log@, 0).0, self.slots, exact)
    }

    /// Drop and log what the slots hold over the cap.
    fn trim(&mut self, now: i64)
        requires
            old(self).slots.wf(),
            old(self).core.size_ok(),
            !old(self).core.closed,
        ensures
            final(self).wf(),
            final(self).slots.next_id == old(self).slots.next_id,
            final(self).slots.slots@.len() == old(self).slots.slots@.len(),
            forall|i: int|
                0 <= i < old(self).slots.slots@.len() ==> (
                #[trigger] final(self).slots.slots@[i]).same_as(&old(self).slots.slots@[i])
                    && final(self).slots.slots@[i].state@ == old(
                    self,
                ).slots.slots@[i].state@.capped(old(self).core.cfg.max_cap),
            logged(
                old(self).core,
                trim_frames(old(self).slots.slots@, old(self).core.cfg.max_cap, now),
                old(self).core.counters,
                final(self).core,
            ),
            complete(old(self).core.log@) ==> complete(final(self).core.log@),
            old(self).durable(false) ==> final(self).durable(false),
            old(self).durable(true) ==> final(self).durable(true),
    {
        let ghost w0 = *self;
        let ghost slots = self.slots.slots@;
        let cap: usize = self.core.cfg.max_cap;
        let mut i: usize = 0;
        assert(w0.core.log@ + Seq::<u8>::empty() =~= w0.core.log@);
        assert(w0.core.pending@ + Seq::<u8>::empty() =~= w0.core.pending@);
        while i < self.slots.slots.len()
            invariant
                i <= slots.len(),
                slots == w0.slots.slots@,
                cap == w0.core.cfg.max_cap,
                !w0.core.closed,
                self.slots.wf(),
                self.core.size_ok(),
                self.slots.next_id == w0.slots.next_id,
                self.slots.slots@.len() == slots.len(),
                forall|j: int|
                    0 <= j < i ==> (#[trigger] self.slots.slots@[j]).same_as(&slots[j])
                        && self.slots.slots@[j].state@ == slots[j].state@.capped(cap)
                        && self.slots.slots@[j].state@.live.dom().len() <= cap,
                forall|j: int| i <= j < slots.len() ==> #[trigger] self.slots.slots@[j] == slots[j],
                logged(
                    w0.core,
                    trim_frames(slots.take(i as int), cap, now),
                    w0.core.counters,
                    self.core,
                ),
                w0.core.size_ok(),
                complete(w0.core.log@) ==> complete(self.core.log@),
                w0.durable(false) ==> self.durable(false),
                w0.durable(true) ==> self.durable(true),
            decreases slots.len() - i,
        {
            let ghost w1 = *self;
            let ghost m = slots[i as int].state@;
            let slot_id: u32 = self.slots.slots[i].slot_id;
            assert(self.slots.slots@[i as int] == slots[i as int]);
            let gone = self.slots.slots[i].state.evict(cap);
            self.core.append_expired(slot_id, now, &gone);
            proof {
                let b = slots.take(i + 1);
                assert(b.drop_last() =~= slots.take(i as int));
                capped_wf(m, cap);
                changed_wf(w1.slots, i as int, self.slots);
                assert forall|j: int| 0 <= j < i + 1 implies (#[trigger]
                self.slots.slots@[j]).same_as(&slots[j]) && self.slots.slots@[j].state@
                    == slots[j].state@.capped(cap) && self.slots.slots@[j].state@.live.dom().len()
                    <= cap by {
                    if j < i {
                        assert(self.slots.slots@[j] == w1.slots.slots@[j]);
                    }
                }
                assert(self.core.log@ =~= w0.core.log@ + trim_frames(b, cap, now));
                assert(self.core.pending@ =~= w0.core.pending@ + trim_frames(b, cap, now));
                if complete(w1.core.log@) {
                    expire_frames_complete(w1.core.log@, slot_id, now, gone@);
                }
                if w1.durable(false) {
                    covers_expired(
                        w1.core.log@,
                        w1.slots,
                        i as int,
                        now,
                        gone@,
                        self.slots,
                        false,
                    );
                }
                if w1.durable(true) {
                    covers_expired(w1.core.log@, w1.slots, i as int, now, gone@, self.slots, true);
                }
            }
            i = i + 1;
        }
        assert(slots.take(i as int) =~= slots);
    }

    /// Rebuild a store from the bytes of its file. Returns the store and how
    /// much of the file is to be kept; the rest is a torn or corrupted tail.
    /// A file of which nothing can be kept starts over with the magic, which
    /// is then waiting to be written.
    ///
    /// Of each slot at most the cap comes back, the greatest sequence numbers;
    /// what was left out is logged as expired. A log that uses up the id space
    /// is refused as corrupt.
    ///
    /// The store is durable from the start, provided that no two slots of the
    /// file carry the same names and that the age limit hides no id without a
    /// name.
    pub fn open(cfg: WalConfig, data: &[u8], now: i64) -> (r: Result<(Wal, usize), StoreError>)
        requires
            cfg.clock_ok(now),
        ensures
            ({
                let st = scan(data@, cfg.cutoff(now)).0;
                let good = scan(data@, cfg.cutoff(now)).1;
                match r {
                    Ok((w, keep)) => {
                        &&& keep == good
                        &&& w.wf()
                        &&& complete(w.core.log@)
                        &&& restored(st, now, w.slots, Some(cfg.max_cap))
                        &&& w.core.cfg == cfg
                        &&& !w.core.closed
                        &&& w.core.counters == Counters::zero()
                        &&& w.core.log@ == (if keep == 0 {
                            FILE_MAGIC@
                        } else {
                            data@.take(keep as int)
                        }) + forgotten(st, w.slots.slots@, cfg.max_cap, now)
                        &&& w.core.pending@ == (if keep == 0 {
                            FILE_MAGIC@
                        } else {
                            Seq::empty()
                        }) + forgotten(st, w.slots.slots@, cfg.max_cap, now)
                        &&& distinct_keys(scan(data@, 0).0) && (forall|id: u32| #[trigger]
                            scan(data@, 0).0.slots.contains_key(id) ==> id < w.slots.next_id) ==> {
                            &&& w.durable(false)
                            &&& cfg.ttl() is None ==> w.durable(true)
                        }
                    },
                    Err(e) => e is Corrupt && (st.slots.contains_key(u32::MAX)
                        || st.names.contains_key(u32::MAX)),
                }
            }),
    {
        let cutoff: i64 = cfg.ttl_cutoff(now);
        let (st, keep) = scan_bytes(data, cutoff);
        let next_id: u32 = match next_id_of(&st) {
            Some(n) => n,
            None => {
                return Err(StoreError::Corrupt);
            },
        };
        let slots = materialize(st, next_id, now);
        let mut pending: Vec<u8> = Vec::new();
        let mut size: i64 = keep as i64;
        if keep == 0 {
            let mut i: usize = 0;
            while i < 8
                invariant
                    i <= 8,
                    pending@ == FILE_MAGIC@.take(i as int),
                decreases 8 - i,
            {
                pending.push(FILE_MAGIC[i]);
                i = i + 1;
                assert(pending@ =~= FILE_MAGIC@.take(i as int));
            }
            assert(FILE_MAGIC@.take(8) =~= FILE_MAGIC@);
            size = 8;
        }
        let ghost log = if keep == 0 {
            FILE_MAGIC@
        } else {
            data@.take(keep as int)
        };
        proof {
            if keep == 0 {
                assert(log.take(8) =~= FILE_MAGIC@);
                assert(complete(log));
            } else {
                truncation_is_harmless(data@, cutoff);
            }
        }
        let core = WalCore {
            cfg,
            pending,
            size,
            closed: false,
            counters: Counters::new(),
            log: Ghost(log),
        };
        let mut w = Wal { core, slots };
        let ghost w0 = w;
        proof {
            if distinct_keys(scan(data@, 0).0) && (forall|id: u32| #[trigger]
                scan(data@, 0).0.slots.contains_key(id) ==> id < w0.slots.next_id) {
                opened_is_durable(data@, cutoff, now, w0.slots, log);
            }
        }
        w.trim(now);
        proof {
            let st = scan(data@, cutoff).0;
            let cap = cfg.max_cap;
            assert forall|i: int| 0 <= i < w.slots.slots@.len() implies came_back(
                st,
                #[trigger] w.slots.slots@[i],
                now,
                Some(cap),
            ) by {
                assert(came_back(st, w0.slots.slots@[i], now, None));
            }
            assert forall|id: u32|
                st.slots.contains_key(id) && #[trigger] st.names.contains_key(id) implies represented(
                w.slots,
                key_of(st.names[id].0, st.names[id].1),
                id,
            ) by {
                let key = key_of(st.names[id].0, st.names[id].1);
                assert(represented(w0.slots, key, id));
                let i = choose|i: int| #[trigger] w0.slots.key_at(key, i)
                    && w0.slots.slots@[i].slot_id >= id;
                assert(w.slots.slots@[i].same_as(&w0.slots.slots@[i]));
                assert(w.slots.key_at(key, i));
            }
            assert forall|i: int| 0 <= i < w0.slots.slots@.len() implies (
            #[trigger] w0.slots.slots@[i]).slot_id == w.slots.slots@[i].slot_id
                && w0.slots.slots@[i].state@ == SlotModel::replayed(
                st.slots[w0.slots.slots@[i].slot_id],
            ) by {
                assert(came_back(st, w0.slots.slots@[i], now, None));
                assert(w.slots.slots@[i].same_as(&w0.slots.slots@[i]));
            }
            trimmed_is_forgotten(st, w0.slots.slots@, w.slots.slots@, cap, now);
        }
        Ok((w, keep))
    }
}

/// A store whose log and live sets stay as they are stays durable.
proof fn same_live_covers(w0: Wal, w1: Wal)
    requires
        w1.core == w0.core,
        w1.slots.next_id == w0.slots.next_id,
        w1.slots.slots@.len() == w0.slots.slots@.len(),
        forall|i: int|
            0 <= i < w0.slots.slots@.len() ==> (#[trigger] w1.slots.slots@[i]).same_as(
                &w0.slots.slots@[i],
            ) && w1.slots.slots@[i].state@.live == w0.slots.slots@[i].state@.live,
    ensures
        w0.durable(false) ==> w1.durable(false),
        w0.durable(true) ==> w1.durable(true),
{
    let st = scan(w0.core.log@, 0).0;
    assert forall|exact: bool| #[trigger] w0.durable(exact) implies w1.durable(exact) by {
        assert forall|j: int| 0 <= j < w1.slots.slots@.len() implies holds_slot(
            st,
            #[trigger] w1.slots.slots@[j],
            exact,
        ) by {
            assert(holds_slot(st, w0.slots.slots@[j], exact));
        }
        assert forall|id: u32| st.names.contains_key(id) <==> w1.slots.has_id(id) by {
            if w0.slots.has_id(id) {
                let k = choose|k: int| w0.slots.id_at(id, k);
                assert(w1.slots.id_at(id, k));
            }
            if w1.slots.has_id(id) {
                let k = choose|k: int| w1.slots.id_at(id, k);
                assert(w0.slots.id_at(id, k));
            }
        }
    }
}

impl Wal {
    /// The bounds gate of a slot.
    pub fn fresh(&self, slot: u32, seq: u64) -> (r: bool)
        requires
            self.wf(),
        ensures
            r == self.slots.model(slot).fresh(seq),
    {
        match self.slots.find_id(slot) {
            Some(i) => {
                proof {
                    self.slots.model_at(i as int);
                }
                self.core.fresh(&self.slots.slots[i], seq)
            },
            None => true,
        }
    }

    /// Whether `seq` has been recorded in a slot: the delivery-path check.
    pub fn seen(&self, slot: u32, seq: u64) -> (r: bool)
        requires
            self.wf(),
        ensures
            r == self.slots.model(slot).seen(seq),
    {
        match self.slots.find_id(slot) {
            Some(i) => {
                proof {
                    self.slots.model_at(i as int);
                }
                self.core.seen(&self.slots.slots[i], seq)
            },
            None => false,
        }
    }

    /// Test and set. `true` and recorded when new, `false` for a duplicate. A
    /// deleted slot reports everything as new and records nothing. A closed
    /// store refuses. What a recording pushes out is logged as expired.
    pub fn check_record(&mut self, slot: u32, seq: u64, now: i64) -> (r: Result<bool, StoreError>)
        requires
            old(self).wf(),
        ensures
            final(self).wf(),
            touched(old(self).slots, slot, final(self).slots),
            ({
                let m = old(self).slots.model(slot);
                if old(self).core.closed {
                    is_closed_err(r) && final(self).core == old(self).core
                        && final(self).slots.slots@ == old(self).slots.slots@
                } else if m.tombed || m.live.contains_key(seq) {
                    &&& r == Ok::<bool, StoreError>(m.tombed)
                    &&& final(self).core == old(self).core
                    &&& final(self).slots.slots@ == old(self).slots.slots@
                    &&& final(self).slots.model(slot) == m
                } else {
                    let cap = old(self).core.cfg.max_cap;
                    &&& r == Ok::<bool, StoreError>(true)
                    &&& final(self).slots.model(slot) == m.recorded(seq, now, cap)
                    &&& logged(
                        old(self).core,
                        record_frames(slot, now, seq, m.pushed(seq, now).surplus(cap)),
                        one_more_recorded(old(self).core.counters),
                        final(self).core,
                    )
                }
            }),
            !old(self).core.closed && !old(self).slots.model(slot).tombed && !old(
                self,
            ).slots.model(slot).live.contains_key(seq) ==> {
                &&& final(self).core.counters.recorded == old(
                    self,
                ).core.counters.recorded.wrapping_add(1)
                &&& final(self).core.counters.recs_since_snap == old(
                    self,
                ).core.counters.recs_since_snap.wrapping_add(1)
                &&& old(self).core.cfg.max_cap > 0 ==> final(self).slots.model(slot).seen(seq)
            },
            old(self).durable(false) ==> final(self).durable(false),
            old(self).durable(true) ==> final(self).durable(true),
    {
        if self.core.closed {
            return Err(StoreError::Closed);
        }
        match self.slots.find_id(slot) {
            Some(i) => {
                let ghost w0 = *self;
                let ghost m = self.slots.slots@[i as int].state@;
                proof {
                    self.slots.model_at(i as int);
                }
                let r = self.core.check_record(&mut self.slots.slots[i], seq, now);
                proof {
                    changed_wf(w0.slots, i as int, self.slots);
                    if m.live.contains_key(seq) {
                        assert(self.slots.slots@ =~= w0.slots.slots@);
                        same_live_covers(w0, *self);
                    } else {
                        let cap = w0.core.cfg.max_cap;
                        let gone = m.pushed(seq, now).surplus(cap);
                        live_within_cap(m, seq, now, cap);
                        if cap > 0 {
                            recorded_is_seen(m, seq, now, cap);
                        }
                        assert(self.slots.slots@[i as int].state@.live.dom()
                            =~= m.live.dom().insert(seq).difference(gone.to_set()));
                        if w0.durable(false) {
                            covers_recorded(
                                w0.core.log@,
                                w0.slots,
                                i as int,
                                now,
                                seq,
                                gone,
                                self.slots,
                                false,
                            );
                        }
                        if w0.durable(true) {
                            covers_recorded(
                                w0.core.log@,
                                w0.slots,
                                i as int,
                                now,
                                seq,
                                gone,
                                self.slots,
                                true,
                            );
                        }
                    }
                }
                r
            },
            None => Ok(true),
        }
    }

    /// Mark `seq` as processed. Idempotent.
    pub fn record(&mut self, slot: u32, seq: u64, now: i64) -> (r: Result<(), StoreError>)
        requires
            old(self).wf(),
        ensures
            final(self).wf(),
            touched(old(self).slots, slot, final(self).slots),
            ({
                let m = old(self).slots.model(slot);
                if old(self).core.closed {
                    is_closed_err(r) && final(self).core == old(self).core
                        && final(self).slots.slots@ == old(self).slots.slots@
                } else if m.tombed || m.live.contains_key(seq) {
                    &&& r is Ok
                    &&& final(self).core == old(self).core
                    &&& final(self).slots.slots@ == old(self).slots.slots@
                    &&& final(self).slots.model(slot) == m
                } else {
                    let cap = old(self).core.cfg.max_cap;
                    &&& r is Ok
                    &&& final(self).slots.model(slot) == m.recorded(seq, now, cap)
                    &&& logged(
                        old(self).core,
                        record_frames(slot, now, seq, m.pushed(seq, now).surplus(cap)),
                        one_more_recorded(old(self).core.counters),
                        final(self).core,
                    )
                }
            }),
            old(self).durable(false) ==> final(self).durable(false),
            old(self).durable(true) ==> final(self).durable(true),
    {
        match self.check_record(slot, seq, now) {
            Ok(_) => Ok(()),
            Err(e) => Err(e),
        }
    }

    /// The broker has the ack of `seq`: drop it. `slot` is an id that this
    /// store gave out; the confirm is logged even where the slot is deleted by
    /// now. A closed store refuses.
    pub fn confirm(&mut self, slot: u32, seq: u64, now: i64) -> (r: Result<(), StoreError>)
        requires
            old(self).wf(),
            slot < old(self).slots.next_id,
        ensures
            final(self).wf(),
            touched(old(self).slots, slot, final(self).slots),
            if old(self).core.closed {
                is_closed_err(r) && final(self).core == old(self).core
                    && final(self).slots.slots@ == old(self).slots.slots@
            } else {
                &&& r is Ok
                &&& final(self).slots.model(slot) == old(self).slots.model(slot).confirmed(seq)
                &&& logged(
                    old(self).core,
                    frame(seq_payload(OP_CONFIRM, slot, now as u64, seq)),
                    Counters {
                        confirmed: old(self).core.counters.confirmed.wrapping_add(1),
                        ..old(self).core.counters
                    },
                    final(self).core,
                )
            },
            old(self).durable(false) ==> final(self).durable(false),
            old(self).durable(true) ==> final(self).durable(true),
    {
        if self.core.closed {
            return Err(StoreError::Closed);
        }
        let ghost w0 = *self;
        let ghost rec = LogRecord {
            op: OP_CONFIRM,
            slot_id: slot,
            ts_ms: now as u64,
            seq,
            stream: Seq::empty(),
            consumer: Seq::empty(),
            seqs: Seq::empty(),
        };
        let ghost st = scan(w0.core.log@, 0).0;
        match self.slots.find_id(slot) {
            Some(i) => {
                let ghost m = self.slots.slots@[i as int].state@;
                proof {
                    self.slots.model_at(i as int);
                }
                let r = self.core.confirm(&mut self.slots.slots[i], seq, now);
                proof {
                    changed_wf(w0.slots, i as int, self.slots);
                    vstd::set_lib::lemma_len_subset(m.live.remove(seq).dom(), m.live.dom());
                    if complete(w0.core.log@) {
                        seq_op_applies(w0.core.log@, OP_CONFIRM, slot, now as u64, seq);
                        if covers(st, w0.slots, false) {
                            assert(holds_slot(st, w0.slots.slots@[i as int], false));
                            covers_live_op(st, w0.slots, i as int, rec, self.slots, false);
                        }
                        if covers(st, w0.slots, true) {
                            assert(holds_slot(st, w0.slots.slots@[i as int], true));
                            assert(self.slots.slots@[i as int].state@.live.dom()
                                =~= st.apply(rec, 0).slots[slot].dom());
                            covers_live_op(st, w0.slots, i as int, rec, self.slots, true);
                        }
                    }
                }
                r
            },
            None => {
                let mut gone = Slot::gone(slot);
                let r = self.core.confirm(&mut gone, seq, now);
                proof {
                    gone_stays(w0.slots, slot, seq);
                    if complete(w0.core.log@) {
                        seq_op_applies(w0.core.log@, OP_CONFIRM, slot, now as u64, seq);
                        if covers(st, w0.slots, false) {
                            covers_orphan_op(st, w0.slots, rec, false);
                        }
                        if covers(st, w0.slots, true) {
                            covers_orphan_op(st, w0.slots, rec, true);
                        }
                    }
                }
                r
            },
        }
    }

    /// Drop everything at or below the broker's cursor; returns how many
    /// entries that were. A cursor that drops nothing leaves no trace. A
    /// closed store refuses.
    pub fn confirm_up_to(&mut self, slot: u32, cursor: u64, now: i64) -> (r: Result<
        usize,
        StoreError,
    >)
        requires
            old(self).wf(),
        ensures
            final(self).wf(),
            touched(old(self).slots, slot, final(self).slots),
            ({
                let m = old(self).slots.model(slot);
                let removed = m.live.dom().len() - above(m.live, cursor).dom().len();
                if old(self).core.closed {
                    is_closed_err(r) && final(self).core == old(self).core
                        && final(self).slots.slots@ == old(self).slots.slots@
                } else {
                    &&& r matches Ok(n) && n == removed
                    &&& final(self).slots.model(slot) == m.dropped_to(cursor)
                    &&& final(self).slots.model(slot).live == above(m.live, cursor)
                    &&& if removed == 0 {
                        final(self).core == old(self).core
                    } else {
                        logged(
                            old(self).core,
                            frame(seq_payload(OP_CONFIRM_UP_TO, slot, now as u64, cursor)),
                            Counters {
                                confirmed: old(self).core.counters.confirmed.wrapping_add(
                                    removed as u64,
                                ),
                                ..old(self).core.counters
                            },
                            final(self).core,
                        )
                    }
                }
            }),
            old(self).durable(false) ==> final(self).durable(false),
            old(self).durable(true) ==> final(self).durable(true),
    {
        if self.core.closed {
            return Err(StoreError::Closed);
        }
        let ghost w0 = *self;
        match self.slots.find_id(slot) {
            Some(i) => {
                let ghost m = self.slots.slots@[i as int].state@;
                proof {
                    self.slots.model_at(i as int);
                    dropped_wf(m, cursor);
                }
                let r = self.core.confirm_up_to(&mut self.slots.slots[i], cursor, now);
                proof {
                    let m1 = self.slots.slots@[i as int].state@;
                    changed_wf(w0.slots, i as int, self.slots);
                    if m1.live.dom().len() == m.live.dom().len() {
                        same_live_covers(w0, *self);
                    } else if complete(w0.core.log@) {
                        seq_op_applies(w0.core.log@, OP_CONFIRM_UP_TO, slot, now as u64, cursor);
                        let rec = LogRecord {
                            op: OP_CONFIRM_UP_TO,
                            slot_id: slot,
                            ts_ms: now as u64,
                            seq: cursor,
                            stream: Seq::empty(),
                            consumer: Seq::empty(),
                            seqs: Seq::empty(),
                        };
                        let st = scan(w0.core.log@, 0).0;
                        if covers(st, w0.slots, false) {
                            assert(holds_slot(st, w0.slots.slots@[i as int], false));
                            covers_live_op(st, w0.slots, i as int, rec, self.slots, false);
                        }
                        if covers(st, w0.slots, true) {
                            assert(holds_slot(st, w0.slots.slots@[i as int], true));
                            assert(m1.live.dom() =~= st.apply(rec, 0).slots[slot].dom());
                            covers_live_op(st, w0.slots, i as int, rec, self.slots, true);
                        }
                    }
                }
                r
            },
            None => {
                proof {
                    let m = w0.slots.model(slot);
                    dropped_wf(m, cursor);
                    assert(above(m.live, cursor) =~= m.live);
                }
                Ok(0)
            },
        }
    }

    /// Metadata of the slot with this id; of a deleted slot, where there is
    /// none.
    pub fn info(&self, slot: u32) -> (r: SlotInfo)
        requires
            self.wf(),
        ensures
            r.slot_id == slot,
            r.live == self.slots.model(slot).live.dom().len(),
            forall|i: int| self.slots.id_at(slot, i) ==> describes(r, self.slots.slots@[i]),
    {
        match self.slots.find_id(slot) {
            Some(i) => {
                proof {
                    self.slots.model_at(i as int);
                    assert forall|j: int| self.slots.id_at(slot, j) implies j == i by {
                        if j < i {
                            assert(self.slots.slots@[j].slot_id < self.slots.slots@[i as int].slot_id);
                        } else if i < j {
                            assert(self.slots.slots@[i as int].slot_id < self.slots.slots@[j].slot_id);
                        }
                    }
                }
                self.core.info(&self.slots.slots[i])
            },
            None => Slot::gone(slot).info(),
        }
    }
}

/// A new slot is empty, so no slot comes over the cap.
proof fn grown_within_cap(w0: Wal, stream: Seq<char>, consumer: Seq<char>, now: i64, w1: Wal)
    requires
        w0.cap_ok(),
        grown(w0.slots, stream, consumer, now, w1.slots),
        w1.core.cfg == w0.core.cfg,
    ensures
        w1.cap_ok(),
{
    let n = w0.slots.slots@.len() as int;
    assert forall|j: int| 0 <= j < w1.slots.slots@.len() implies (
    #[trigger] w1.slots.slots@[j]).state@.live.dom().len() <= w1.core.cfg.max_cap by {
        if j < n {
            assert(w1.slots.slots@.take(n)[j] == w0.slots.slots@[j]);
        } else {
            assert(w1.slots.slots@[j].state@.live.dom() =~= Set::empty());
        }
    }
}

/// What a sync does beyond the file work.
///
/// * Closed: `Closed`, nothing changes.
/// * The file work failed: counted, and passed on as `Io`.
/// * Otherwise the time is noted. A log at its size limit asks for compaction;
///   else enough records since the last snapshot bring about the next one.
pub open spec fn synced(
    w0: Wal,
    io: Result<(), String>,
    now: i64,
    w1: Wal,
    r: Result<SyncNext, StoreError>,
) -> bool {
    let c0 = w0.core.counters;
    let cfg = w0.core.cfg;
    let noted = Counters { last_sync_ms: now as u64, ..c0 };
    if w0.core.closed {
        is_closed_err(r) && w1 == w0
    } else if io is Err {
        &&& r matches Err(e) && e matches StoreError::Io(text) && text == io->Err_0
        &&& w1.slots == w0.slots
        &&& w1.core == (WalCore {
            counters: Counters { sync_errors: c0.sync_errors.wrapping_add(1), ..c0 },
            ..w0.core
        })
    } else if cfg.compact_at_bytes > 0 && w0.core.size >= cfg.compact_at_bytes {
        &&& r == Ok::<SyncNext, StoreError>(SyncNext::Compact)
        &&& w1.slots == w0.slots
        &&& w1.core == (WalCore { counters: noted, ..w0.core })
    } else if cfg.snapshot_every_n > 0 && c0.recs_since_snap as usize >= cfg.snapshot_every_n {
        &&& r == Ok::<SyncNext, StoreError>(SyncNext::Done)
        &&& w1.slots == w0.slots
        &&& appended(w0.core, snapshot_frames(w0.slots.slots@, now as u64), w1.core)
        &&& w1.core.counters == (Counters {
            recs_since_snap: 0,
            last_snap_ms: now as u64,
            ..noted
        })
    } else {
        &&& r == Ok::<SyncNext, StoreError>(SyncNext::Done)
        &&& w1.slots == w0.slots
        &&& w1.core == (WalCore { counters: noted, ..w0.core })
    }
}

impl Store for Wal {
    open spec fn table(&self) -> SlotTable {
        self.slots
    }

    open spec fn is_closed(&self) -> bool {
        self.core.closed
    }

    #[verifier::spinoff_prover]
    #[verifier::rlimit(60)]
    fn slot(&mut self, stream: &str, consumer: &str, now: i64) -> (r: Result<u32, StoreError>)
        ensures
            grown(old(self).table(), stream@, consumer@, now, final(self).table()) ==> logged(
                old(self).core,
                frame(
                    register_payload(
                        old(self).slots.next_id,
                        now as u64,
                        encode_utf8(stream@),
                        encode_utf8(consumer@),
                    ),
                ),
                Counters {
                    registered: old(self).core.counters.registered.wrapping_add(1),
                    ..old(self).core.counters
                },
                final(self).core,
            ),
            final(self).table() == old(self).table() ==> final(self).core == old(self).core,
            old(self).core.size_ok() ==> final(self).core.size_ok(),
            old(self).cap_ok() ==> final(self).cap_ok(),
            old(self).durable(false) ==> final(self).durable(false),
            old(self).durable(true) ==> final(self).durable(true),
    {
        if self.core.closed {
            return Err(StoreError::Closed);
        }
        if byte_len(stream) > MAX_NAME_LEN || byte_len(consumer) > MAX_NAME_LEN {
            return Err(StoreError::NameTooLong);
        }
        let key = slot_key(stream, consumer);
        if let Some(i) = self.slots.find(&key) {
            assert(self.slots.key_at(key@, i as int));
            return Ok(self.slots.slots[i].slot_id);
        }
        if self.slots.next_id == u32::MAX {
            return Err(StoreError::SlotOverflow);
        }
        let ghost w0 = *self;
        let id: u32 = self.slots.add_slot(stream, consumer, now);
        let s8 = stream.as_bytes();
        let c8 = consumer.as_bytes();
        let mut buf: Vec<u8> = vec![0u8; register_frame_size(s8.len(), c8.len())];
        encode_register(buf.as_mut_slice(), id, now as u64, s8, c8);
        let ghost payload = register_payload(id, now as u64, s8@, c8@);
        assert(buf@ =~= frame(payload));
        let _done = self.core.append_frame(buf.as_slice());
        proof {
            if w0.cap_ok() {
                grown_within_cap(w0, stream@, consumer@, now, *self);
            }
            if complete(w0.core.log@) {
                register_round_trip(id, now as u64, s8@, c8@);
                text_round_trip(stream@);
                text_round_trip(consumer@);
                append_applies(w0.core.log@, payload, 0);
                let rec = record_of(payload)->0;
                let st = scan(w0.core.log@, 0).0;
                if covers(st, w0.slots, false) {
                    covers_register(st, w0.slots, stream@, consumer@, now, self.slots, rec, false);
                }
                if covers(st, w0.slots, true) {
                    covers_register(st, w0.slots, stream@, consumer@, now, self.slots, rec, true);
                }
            }
        }
        self.core.counters.registered = self.core.counters.registered.wrapping_add(1);
        Ok(id)
    }

    fn sync(&mut self, io: Result<(), String>, now: i64) -> (r: Result<SyncNext, StoreError>)
        ensures
            synced(*old(self), io, now, *final(self), r),
            !old(self).core.closed && io is Ok ==> {
                let cfg = old(self).core.cfg;
                let full = cfg.compact_at_bytes > 0 && old(self).core.size >= cfg.compact_at_bytes;
                let due = cfg.snapshot_every_n > 0 && old(
                    self,
                ).core.counters.recs_since_snap as usize >= cfg.snapshot_every_n;
                &&& r == Ok::<SyncNext, StoreError>(
                    if full {
                        SyncNext::Compact
                    } else {
                        SyncNext::Done
                    },
                )
                &&& final(self).core.log@.len() > old(self).core.log@.len() ==> due && !full
                &&& !full && due ==> final(self).core.counters.recs_since_snap == 0
                    && final(self).core.log@ == old(self).core.log@ + snapshot_frames(
                    old(self).slots.slots@,
                    now as u64,
                )
                &&& final(self).core.counters.last_sync_ms == now as u64
            },
            old(self).core.size_ok() ==> final(self).core.size_ok(),
            old(self).cap_ok() ==> final(self).cap_ok(),
            old(self).durable(false) && snapshots_fit(old(self).slots.slots@)
                ==> final(self).durable(false),
            old(self).durable(true) && snapshots_fit(old(self).slots.slots@)
                ==> final(self).durable(true),
    {
        if self.core.closed {
            return Err(StoreError::Closed);
        }
        match io {
            Err(e) => {
                self.core.counters.sync_errors = self.core.counters.sync_errors.wrapping_add(1);
                return Err(StoreError::Io(e));
            },
            Ok(_) => {},
        }
        self.core.counters.last_sync_ms = now as u64;
        if self.core.cfg.compact_at_bytes > 0 && self.core.size >= self.core.cfg.compact_at_bytes {
            return Ok(SyncNext::Compact);
        }
        if self.core.cfg.snapshot_every_n > 0 && self.core.counters.recs_since_snap as usize
            >= self.core.cfg.snapshot_every_n {
            match self.snapshot(now) {
                Ok(_) => {},
                Err(e) => {
                    return Err(e);
                },
            }
        }
        Ok(SyncNext::Done)
    }

    fn restore(&self) -> (r: Result<(), StoreError>) {
        if self.core.closed {
            return Err(StoreError::Closed);
        }
        Ok(())
    }

    fn close(&mut self, io: Result<(), String>) -> (r: Result<(), StoreError>)
        ensures
            if old(self).core.closed {
                r is Ok && *final(self) == *old(self)
            } else if io is Err {
                &&& r matches Err(e) && e matches StoreError::Io(text) && text == io->Err_0
                &&& *final(self) == *old(self)
            } else {
                &&& r is Ok
                &&& final(self).slots == old(self).slots
                &&& final(self).core == (WalCore { closed: true, ..old(self).core })
            },
    {
        if self.core.closed {
            return Ok(());
        }
        match io {
            Err(e) => Err(StoreError::Io(e)),
            Ok(_) => {
                self.core.closed = true;
                Ok(())
            },
        }
    }

    fn list_slots(&self) -> (r: Vec<SlotInfo>) {
        self.slots.infos()
    }

    fn slot_info(&self, stream: &str, consumer: &str) -> (r: Option<SlotInfo>) {
        match self.slots.find(&slot_key(stream, consumer)) {
            Some(i) => {
                let info = self.slots.slots[i].info();
                assert(self.table().key_at(key_of(stream@, consumer@), i as int));
                assert(describes(info, self.table().slots@[i as int]));
                Some(info)
            },
            None => None,
        }
    }

    fn delete_slot(&mut self, stream: &str, consumer: &str, now: i64) -> (r: Result<
        (),
        StoreError,
    >)
        ensures
            final(self).table() == old(self).table() ==> final(self).core == old(self).core,
            r is Ok ==> exists|i: int| #[trigger]
                old(self).table().key_at(key_of(stream@, consumer@), i) && logged(
                    old(self).core,
                    frame(tombstone_payload(old(self).slots.slots@[i].slot_id, now as u64)),
                    Counters {
                        tombstoned: old(self).core.counters.tombstoned.wrapping_add(1),
                        ..old(self).core.counters
                    },
                    final(self).core,
                ),
            old(self).core.size_ok() ==> final(self).core.size_ok(),
            old(self).cap_ok() ==> final(self).cap_ok(),
            old(self).durable(false) ==> final(self).durable(false),
            old(self).durable(true) ==> final(self).durable(true),
    {
        if self.core.closed {
            return Err(StoreError::Closed);
        }
        let key = slot_key(stream, consumer);
        let ghost w0 = *self;
        match self.slots.find(&key) {
            None => Err(StoreError::UnknownSlot),
            Some(i) => {
                assert(self.table().key_at(key@, i as int));
                let gone = self.slots.take_slot(i);
                let id: u32 = gone.slot_id;
                let _done = self.core.append_tombstone(id, now);
                self.core.counters.tombstoned = self.core.counters.tombstoned.wrapping_add(1);
                proof {
                    assert(self.slots.slots@.len() != w0.slots.slots@.len());
                    assert forall|k: int| 0 <= k < self.slots.slots@.len() implies
                        #[trigger] self.slots.slots@[k] == w0.slots.slots@[if k < i {
                        k
                    } else {
                        k + 1
                    }] by {}
                    if complete(w0.core.log@) {
                        let payload = tombstone_payload(id, now as u64);
                        tombstone_round_trip(id, now as u64);
                        append_applies(w0.core.log@, payload, 0);
                        let rec = record_of(payload)->0;
                        let st = scan(w0.core.log@, 0).0;
                        if covers(st, w0.slots, false) {
                            covers_tombstone(st, w0.slots, i as int, self.slots, rec, false);
                        }
                        if covers(st, w0.slots, true) {
                            covers_tombstone(st, w0.slots, i as int, self.slots, rec, true);
                        }
                    }
                }
                Ok(())
            },
        }
    }

    fn metrics(&self) -> (r: Metrics)
        ensures
            r.recorded == self.core.counters.recorded,
            r.confirmed == self.core.counters.confirmed,
            r.expired == self.core.counters.expired,
            r.registered == self.core.counters.registered,
            r.tombstoned == self.core.counters.tombstoned,
            r.sync_errors == self.core.counters.sync_errors,
            r.file_size == self.core.size,
            r.last_sync_ms == self.core.counters.last_sync_ms as i64,
            r.last_snapshot_ms == self.core.counters.last_snap_ms as i64,
    {
        Metrics {
            slots: self.slots.slots.len(),
            live_entries: self.slots.live_total(),
            recorded: self.core.counters.recorded,
            confirmed: self.core.counters.confirmed,
            expired: self.core.counters.expired,
            registered: self.core.counters.registered,
            tombstoned: self.core.counters.tombstoned,
            sync_errors: self.core.counters.sync_errors,
            file_size: self.core.size,
            last_sync_ms: self.core.counters.last_sync_ms as i64,
            last_snapshot_ms: self.core.counters.last_snap_ms as i64,
        }
    }
}

} // verus!
