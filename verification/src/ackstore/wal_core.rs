//! Persistent, append-only store backed by a write-ahead log.
//!
//! The in-memory state is the runtime source of truth; the log is read only at
//! open. Appended bytes collect in a buffer that the owner of the file writes
//! out; a record is durable once that has been flushed.

use crate::ackstore::format::{
    encode_seq_op, encode_tombstone, frame, seq_payload, tombstone_payload, OP_CONFIRM,
    OP_CONFIRM_UP_TO, OP_EXPIRE, OP_RECORD,
};
use crate::ackstore::store::{Slot, SlotInfo, SlotRef, StoreError};
use crate::le::le_bytes_len;
use vstd::prelude::*;

verus! {

broadcast use {vstd::laws_cmp::group_laws_cmp, le_bytes_len};

/// Log configuration.
#[derive(Debug, Clone)]
pub struct WalConfig {
    pub dir: String,
    /// Per-entry expiry in ms; `None` or zero disables it.
    pub ttl_ms: Option<u64>,
    /// How often expired entries are swept, in ms.
    pub sweep_interval_ms: u64,
    /// Whether a sync also forces the file to disk.
    pub fsync: bool,
    /// Live entries per slot before the oldest are pushed out.
    pub max_cap: usize,
    /// Records between automatic snapshots; 0 disables them.
    pub snapshot_every_n: usize,
    /// File size from which a sync asks for compaction; 0 disables it.
    pub compact_at_bytes: i64,
}

impl WalConfig {
    pub fn new(dir: String) -> (r: WalConfig)
        ensures
            r.dir == dir,
            r.ttl_ms is None,
            r.sweep_interval_ms == 5000,
            !r.fsync,
            r.max_cap == 1_000_000,
            r.snapshot_every_n == 0,
            r.compact_at_bytes == 0,
    {
        WalConfig {
            dir,
            ttl_ms: None,
            sweep_interval_ms: 5000,
            fsync: false,
            max_cap: 1_000_000,
            snapshot_every_n: 0,
            compact_at_bytes: 0,
        }
    }

    /// The age limit in force, if any.
    pub open spec fn ttl(&self) -> Option<u64> {
        match self.ttl_ms {
            Some(t) => if t == 0 {
                None
            } else {
                Some(t)
            },
            None => None,
        }
    }

    /// A clock reading from which the age limit can be taken off.
    pub open spec fn clock_ok(&self, now: i64) -> bool {
        match self.ttl() {
            Some(t) => t <= i64::MAX && now - t >= i64::MIN,
            None => true,
        }
    }

    /// Entries older than this are expired; 0 where nothing expires.
    pub open spec fn cutoff(&self, now: i64) -> i64 {
        match self.ttl() {
            Some(t) => (now - t) as i64,
            None => 0,
        }
    }

    pub fn ttl_cutoff(&self, now: i64) -> (r: i64)
        requires
            self.clock_ok(now),
        ensures
            r == self.cutoff(now),
            self.ttl_ms matches Some(t) && t > 0 ==> r == now - self.ttl_ms->0,
            self.ttl_ms is None || self.ttl_ms == Some(0u64) ==> r == 0,
    {
        match self.ttl_ms {
            Some(t) => if t == 0 {
                0
            } else {
                now - t as i64
            },
            None => 0,
        }
    }
}

/// Running totals.
#[derive(Debug, Clone, Copy)]
pub struct Counters {
    pub recorded: u64,
    pub confirmed: u64,
    pub expired: u64,
    pub registered: u64,
    pub tombstoned: u64,
    pub sync_errors: u64,
    pub last_sync_ms: u64,
    pub last_snap_ms: u64,
    pub recs_since_snap: u64,
}

impl Counters {
    pub open spec fn zero() -> Counters {
        Counters {
            recorded: 0,
            confirmed: 0,
            expired: 0,
            registered: 0,
            tombstoned: 0,
            sync_errors: 0,
            last_sync_ms: 0,
            last_snap_ms: 0,
            recs_since_snap: 0,
        }
    }

    pub fn new() -> (r: Counters)
        ensures
            r == Counters::zero(),
    {
        Counters {
            recorded: 0,
            confirmed: 0,
            expired: 0,
            registered: 0,
            tombstoned: 0,
            sync_errors: 0,
            last_sync_ms: 0,
            last_snap_ms: 0,
            recs_since_snap: 0,
        }
    }
}

/// Expire frames of one slot, in the order given.
pub open spec fn expire_frames(slot_id: u32, now: i64, seqs: Seq<u64>) -> Seq<u8>
    decreases seqs.len(),
{
    if seqs.len() == 0 {
        Seq::empty()
    } else {
        expire_frames(slot_id, now, seqs.drop_last()) + frame(
            seq_payload(OP_EXPIRE, slot_id, now as u64, seqs.last()),
        )
    }
}

/// What a recording writes: the record, and an expire frame for each entry
/// that it pushes out.
pub open spec fn record_frames(slot_id: u32, now: i64, seq: u64, gone: Seq<u64>) -> Seq<u8> {
    frame(seq_payload(OP_RECORD, slot_id, now as u64, seq)) + expire_frames(slot_id, now, gone)
}

/// The writing end of the log.
pub struct WalCore {
    pub cfg: WalConfig,
    /// Bytes appended and not yet handed to the file.
    pub pending: Vec<u8>,
    /// Size of the log, pending bytes included.
    pub size: i64,
    pub closed: bool,
    pub counters: Counters,
    /// The whole log: what the file holds, then what is pending.
    pub log: Ghost<Seq<u8>>,
}

/// `c1` is `c0` with `bytes` appended to the log.
pub open spec fn appended(c0: WalCore, bytes: Seq<u8>, c1: WalCore) -> bool {
    &&& c1.cfg == c0.cfg
    &&& c1.pending@ == c0.pending@ + bytes
    &&& c0.size_ok() ==> c1.size_ok()
    &&& c1.closed == c0.closed
    &&& c1.log@ == c0.log@ + bytes
}

/// An append: refused once the log is closed, else carried out.
pub open spec fn append_outcome(
    c0: WalCore,
    bytes: Seq<u8>,
    c1: WalCore,
    r: Result<(), StoreError>,
) -> bool {
    if c0.closed {
        (r matches Err(e) && e is Closed) && c1 == c0
    } else {
        r is Ok && appended(c0, bytes, c1) && c1.counters == c0.counters
    }
}

impl WalCore {
    /// The recorded size is that of the log (of any log that a file can hold).
    pub open spec fn size_ok(&self) -> bool {
        self.log@.len() <= i64::MAX ==> self.size == self.log@.len()
    }

    /// Append raw bytes.
    pub fn append_frame(&mut self, bytes: &[u8]) -> (r: Result<(), StoreError>)
        ensures
            append_outcome(*old(self), bytes@, *final(self), r),
    {
        if self.closed {
            return Err(StoreError::Closed);
        }
        self.pending.extend_from_slice(bytes);
        self.size = self.size.wrapping_add(bytes.len() as i64);
        self.log = Ghost(self.log@ + bytes@);
        assert(self.pending@ =~= old(self).pending@ + bytes@);
        Ok(())
    }

    /// Append a record, confirm, expire or confirm-up-to frame.
    pub fn append_seq_op(&mut self, op: u8, slot_id: u32, ts_ms: i64, seq: u64) -> (r: Result<
        (),
        StoreError,
    >)
        ensures
            append_outcome(
                *old(self),
                frame(seq_payload(op, slot_id, ts_ms as u64, seq)),
                *final(self),
                r,
            ),
    {
        if self.closed {
            return Err(StoreError::Closed);
        }
        let mut buf: Vec<u8> = vec![0u8; 29];
        encode_seq_op(buf.as_mut_slice(), op, slot_id, ts_ms as u64, seq);
        assert(buf@ =~= frame(seq_payload(op, slot_id, ts_ms as u64, seq)));
        self.append_frame(buf.as_slice())
    }

    /// Append an expire frame for each of a list.
    pub fn append_expired(&mut self, slot_id: u32, ts_ms: i64, seqs: &Vec<u64>)
        requires
            !old(self).closed,
        ensures
            appended(*old(self), expire_frames(slot_id, ts_ms, seqs@), *final(self)),
            final(self).counters == old(self).counters,
    {
        let ghost c0 = *self;
        let mut i: usize = 0;
        assert(c0.log@ + expire_frames(slot_id, ts_ms, seqs@.take(0)) =~= c0.log@);
        assert(c0.pending@ + expire_frames(slot_id, ts_ms, seqs@.take(0)) =~= c0.pending@);
        while i < seqs.len()
            invariant
                i <= seqs@.len(),
                !c0.closed,
                appended(c0, expire_frames(slot_id, ts_ms, seqs@.take(i as int)), *self),
                self.counters == c0.counters,
            decreases seqs@.len() - i,
        {
            let _done = self.append_seq_op(OP_EXPIRE, slot_id, ts_ms, seqs[i]);
            proof {
                let b = seqs@.take(i + 1);
                assert(b.drop_last() =~= seqs@.take(i as int));
                assert(self.log@ =~= c0.log@ + expire_frames(slot_id, ts_ms, b));
                assert(self.pending@ =~= c0.pending@ + expire_frames(slot_id, ts_ms, b));
            }
            i = i + 1;
        }
        assert(seqs@.take(i as int) =~= seqs@);
    }

    /// Append a tombstone frame.
    pub fn append_tombstone(&mut self, slot_id: u32, ts_ms: i64) -> (r: Result<(), StoreError>)
        ensures
            append_outcome(
                *old(self),
                frame(tombstone_payload(slot_id, ts_ms as u64)),
                *final(self),
                r,
            ),
    {
        if self.closed {
            return Err(StoreError::Closed);
        }
        let mut buf: Vec<u8> = vec![0u8; 21];
        encode_tombstone(buf.as_mut_slice(), slot_id, ts_ms as u64);
        assert(buf@ =~= frame(tombstone_payload(slot_id, ts_ms as u64)));
        self.append_frame(buf.as_slice())
    }

    /// Hand over the bytes that wait to be written to the file.
    pub fn take_pending(&mut self) -> (r: Vec<u8>)
        ensures
            r@ == old(self).pending@,
            final(self).pending@.len() == 0,
            final(self).cfg == old(self).cfg,
            final(self).size == old(self).size,
            final(self).closed == old(self).closed,
            final(self).counters == old(self).counters,
            final(self).log == old(self).log,
    {
        let mut out: Vec<u8> = Vec::new();
        std::mem::swap(&mut out, &mut self.pending);
        out
    }
}

/// `c1` is `c0` with `bytes` appended to the log and these counters.
pub open spec fn logged(c0: WalCore, bytes: Seq<u8>, counters: Counters, c1: WalCore) -> bool {
    appended(c0, bytes, c1) && c1.counters == counters
}

/// The counters after one more recording.
pub open spec fn one_more_recorded(c: Counters) -> Counters {
    Counters {
        recorded: c.recorded.wrapping_add(1),
        recs_since_snap: c.recs_since_snap.wrapping_add(1),
        ..c
    }
}

impl SlotRef for WalCore {
    open spec fn cap(&self) -> usize {
        self.cfg.max_cap
    }

    open spec fn closed(&self) -> bool {
        self.closed
    }

    fn fresh(&self, slot: &Slot, seq: u64) -> (r: bool) {
        slot.state.fresh(seq)
    }

    fn seen(&self, slot: &Slot, seq: u64) -> (r: bool) {
        slot.state.seen(seq)
    }

    fn check_record(&mut self, slot: &mut Slot, seq: u64, now: i64) -> (r: Result<
        bool,
        StoreError,
    >)
        ensures
            ({
                let m = old(slot).state@;
                if old(self).closed || m.tombed || m.live.contains_key(seq) {
                    *final(self) == *old(self)
                } else {
                    logged(
                        *old(self),
                        record_frames(
                            old(slot).slot_id,
                            now,
                            seq,
                            m.pushed(seq, now).surplus(old(self).cfg.max_cap),
                        ),
                        one_more_recorded(old(self).counters),
                        *final(self),
                    )
                }
            }),
    {
        if self.closed {
            return Err(StoreError::Closed);
        }
        if slot.state.tombed {
            return Ok(true);
        }
        if slot.state.set.contains_key(&seq) {
            return Ok(false);
        }
        let gone = slot.state.insert(seq, now, self.cfg.max_cap);
        let _done = self.append_seq_op(OP_RECORD, slot.slot_id, now, seq);
        self.append_expired(slot.slot_id, now, &gone);
        self.counters.recorded = self.counters.recorded.wrapping_add(1);
        self.counters.recs_since_snap = self.counters.recs_since_snap.wrapping_add(1);
        proof {
            let f = record_frames(slot.slot_id, now, seq, gone@);
            assert(self.log@ =~= old(self).log@ + f);
            assert(self.pending@ =~= old(self).pending@ + f);
        }
        Ok(true)
    }

    fn record(&mut self, slot: &mut Slot, seq: u64, now: i64) -> (r: Result<(), StoreError>)
        ensures
            ({
                let m = old(slot).state@;
                if old(self).closed || m.tombed || m.live.contains_key(seq) {
                    *final(self) == *old(self)
                } else {
                    logged(
                        *old(self),
                        record_frames(
                            old(slot).slot_id,
                            now,
                            seq,
                            m.pushed(seq, now).surplus(old(self).cfg.max_cap),
                        ),
                        one_more_recorded(old(self).counters),
                        *final(self),
                    )
                }
            }),
    {
        match self.check_record(slot, seq, now) {
            Ok(_) => Ok(()),
            Err(e) => Err(e),
        }
    }

    fn confirm(&mut self, slot: &mut Slot, seq: u64, now: i64) -> (r: Result<(), StoreError>)
        ensures
            if old(self).closed {
                *final(self) == *old(self)
            } else {
                logged(
                    *old(self),
                    frame(seq_payload(OP_CONFIRM, old(slot).slot_id, now as u64, seq)),
                    Counters {
                        confirmed: old(self).counters.confirmed.wrapping_add(1),
                        ..old(self).counters
                    },
                    *final(self),
                )
            },
    {
        if self.closed {
            return Err(StoreError::Closed);
        }
        slot.state.confirm(seq);
        let _done = self.append_seq_op(OP_CONFIRM, slot.slot_id, now, seq);
        self.counters.confirmed = self.counters.confirmed.wrapping_add(1);
        Ok(())
    }

    fn confirm_up_to(&mut self, slot: &mut Slot, cursor: u64, now: i64) -> (r: Result<
        usize,
        StoreError,
    >)
        ensures
            match r {
                Ok(n) => if n == 0 {
                    *final(self) == *old(self)
                } else {
                    logged(
                        *old(self),
                        frame(seq_payload(OP_CONFIRM_UP_TO, old(slot).slot_id, now as u64, cursor)),
                        Counters {
                            confirmed: old(self).counters.confirmed.wrapping_add(n as u64),
                            ..old(self).counters
                        },
                        *final(self),
                    )
                },
                Err(_) => *final(self) == *old(self),
            },
    {
        if self.closed {
            return Err(StoreError::Closed);
        }
        let removed: usize = slot.state.drop_to(cursor);
        if removed == 0 {
            return Ok(0);
        }
        let _done = self.append_seq_op(OP_CONFIRM_UP_TO, slot.slot_id, now, cursor);
        self.counters.confirmed = self.counters.confirmed.wrapping_add(removed as u64);
        Ok(removed)
    }

    fn info(&self, slot: &Slot) -> (r: SlotInfo) {
        slot.info()
    }
}

// ── laws ───────────────────────────────────────────────────────────────────
/// What a file holds and what waits to be written make up the log: an append
/// keeps it so.
pub proof fn file_and_pending_make_the_log(c0: WalCore, bytes: Seq<u8>, c1: WalCore, file: Seq<u8>)
    requires
        appended(c0, bytes, c1),
        c0.log@ == file + c0.pending@,
    ensures
        c1.log@ == file + c1.pending@,
        c1.log@.len() == c0.log@.len() + bytes.len(),
        c1.log@.take(c0.log@.len() as int) == c0.log@,
{
    assert(c1.log@ =~= file + c1.pending@);
    assert(c1.log@.take(c0.log@.len() as int) =~= c0.log@);
}

} // verus!
