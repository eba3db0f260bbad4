//! Rebuilding the store's state from a log image.
//!
//! Frames are read until the tail cannot supply a whole frame with a valid
//! checksum and payload; everything before that counts, nothing after it does.

use crate::ackstore::format::{
    changed_byte_changes_checksum, crc32c, crc32c_of, decode_payload, frame, record_of,
    register_payload, register_round_trip, seq_op_round_trip, seq_payload, snapshot_payload, snapshot_round_trip, tombstone_payload,
    tombstone_round_trip, Decoded, LogRecord, FILE_MAGIC, OP_CONFIRM, OP_CONFIRM_UP_TO, OP_EXPIRE,
    OP_RECORD, OP_REGISTER, OP_SNAPSHOT, OP_TOMBSTONE,
};
use crate::ackstore::live::{above, drop_up_to, LiveMap};
use crate::le::{get_u32, le_bytes, le_bytes_len, le_round_trip, le_value, pow256_values};
use crate::text::{text_of, text_round_trip, utf8_lossy};
use std::collections::BTreeMap;
use vstd::prelude::*;
use vstd::utf8::encode_utf8;

verus! {

broadcast use {vstd::laws_cmp::group_laws_cmp, le_bytes_len};

/// Longest payload that replay accepts (64 MiB).
pub const MAX_PAYLOAD: usize = 67_108_864;

/// Live sets and names, by slot id.
#[verifier::ext_equal]
pub struct ReplayModel {
    pub slots: Map<u32, Map<u64, i64>>,
    pub names: Map<u32, (Seq<char>, Seq<char>)>,
}

impl ReplayModel {
    pub open spec fn empty() -> ReplayModel {
        ReplayModel { slots: Map::empty(), names: Map::empty() }
    }

    /// The live set of a slot, empty where the slot is unknown.
    pub open spec fn live(self, id: u32) -> Map<u64, i64> {
        if self.slots.contains_key(id) {
            self.slots[id]
        } else {
            Map::empty()
        }
    }

    pub open spec fn with_live(self, id: u32, live: Map<u64, i64>) -> ReplayModel {
        ReplayModel { slots: self.slots.insert(id, live), ..self }
    }

    /// After one more record. With a positive cutoff, recordings older than it
    /// do not come back.
    pub open spec fn apply(self, r: LogRecord, cutoff: i64) -> ReplayModel {
        let id = r.slot_id;
        let ts = r.ts_ms as i64;
        let stale = cutoff > 0 && ts < cutoff;
        if r.op == OP_REGISTER {
            ReplayModel {
                slots: self.slots.insert(id, self.live(id)),
                names: self.names.insert(id, (text_of(r.stream), text_of(r.consumer))),
            }
        } else if r.op == OP_RECORD {
            if stale {
                self
            } else {
                self.with_live(id, self.live(id).insert(r.seq, ts))
            }
        } else if r.op == OP_CONFIRM || r.op == OP_EXPIRE {
            self.with_live(id, self.live(id).remove(r.seq))
        } else if r.op == OP_CONFIRM_UP_TO {
            self.with_live(id, above(self.live(id), r.seq))
        } else if r.op == OP_TOMBSTONE {
            ReplayModel { slots: self.slots.remove(id), names: self.names.remove(id) }
        } else if r.op == OP_SNAPSHOT {
            self.with_live(
                id,
                if stale {
                    Map::empty()
                } else {
                    stamped(r.seqs, ts)
                },
            )
        } else {
            self
        }
    }
}

/// Every listed sequence number, recorded at `ts`.
pub open spec fn stamped(seqs: Seq<u64>, ts: i64) -> Map<u64, i64> {
    Map::new(|s: u64| seqs.contains(s), |s: u64| ts)
}

/// The record whose frame starts at `pos`, and where that frame ends. `None`
/// where no whole, valid frame does.
pub open spec fn frame_at(data: Seq<u8>, pos: int) -> Option<(LogRecord, int)> {
    if pos + 4 > data.len() {
        None
    } else {
        let plen = le_value(data.subrange(pos, pos + 4)) as int;
        let end = pos + 8 + plen;
        if plen == 0 || plen > MAX_PAYLOAD || end > data.len() {
            None
        } else {
            let payload = data.subrange(pos + 4, pos + 4 + plen);
            if le_value(data.subrange(pos + 4 + plen, end)) != crc32c_of(payload) as nat {
                None
            } else {
                match record_of(payload) {
                    Some(r) => Some((r, end)),
                    None => None,
                }
            }
        }
    }
}

/// State after the frames from `pos` on, and where the last valid one ends.
pub open spec fn scan_from(data: Seq<u8>, pos: int, st: ReplayModel, cutoff: i64) -> (
    ReplayModel,
    int,
)
    decreases data.len() - pos,
{
    match frame_at(data, pos) {
        Some((r, end)) => if pos < end && end <= data.len() {
            scan_from(data, end, st.apply(r, cutoff), cutoff)
        } else {
            (st, pos)
        },
        None => (st, pos),
    }
}

pub open spec fn has_magic(data: Seq<u8>) -> bool {
    data.len() >= 8 && data.take(8) == FILE_MAGIC@
}

/// State of a whole image, and how much of it is valid. An image without the
/// magic holds nothing.
pub open spec fn scan(data: Seq<u8>, cutoff: i64) -> (ReplayModel, int) {
    if has_magic(data) {
        scan_from(data, 8, ReplayModel::empty(), cutoff)
    } else {
        (ReplayModel::empty(), 0)
    }
}

/// Live sets and names found in a log.
pub struct Replayed {
    pub slots: BTreeMap<u32, LiveMap>,
    pub names: BTreeMap<u32, (String, String)>,
}

impl View for Replayed {
    type V = ReplayModel;

    open spec fn view(&self) -> ReplayModel {
        ReplayModel {
            slots: self.slots@.map_values(|m: LiveMap| m@),
            names: self.names@.map_values(|p: (String, String)| (p.0@, p.1@)),
        }
    }
}

impl Replayed {
    pub fn new() -> (r: Replayed)
        ensures
            r@ == ReplayModel::empty(),
    {
        let r = Replayed { slots: BTreeMap::new(), names: BTreeMap::new() };
        assert(r@ =~= ReplayModel::empty());
        r
    }

    /// Take a slot's live set out, empty where the slot is unknown.
    fn take_live(&mut self, id: u32) -> (r: LiveMap)
        ensures
            r@ == old(self)@.live(id),
            final(self)@.slots == old(self)@.slots.remove(id),
            final(self)@.names == old(self)@.names,
    {
        let r = match self.slots.remove(&id) {
            Some(m) => m,
            None => BTreeMap::new(),
        };
        assert(self@.slots =~= old(self)@.slots.remove(id));
        r
    }

    fn put_live(&mut self, id: u32, m: LiveMap)
        ensures
            final(self)@ == old(self)@.with_live(id, m@),
    {
        self.slots.insert(id, m);
        assert(self@.slots =~= old(self)@.slots.insert(id, m@));
    }
}

/// Apply one record. With a positive cutoff, recordings older than it do not
/// come back.
pub fn apply_replay(st: &mut Replayed, d: &Decoded, ttl_cutoff: i64)
    ensures
        final(st)@ == old(st)@.apply(d@, ttl_cutoff),
{
    let ghost st0 = st@;
    let id: u32 = d.slot_id;
    let ts: i64 = d.ts_ms as i64;
    if d.op == OP_REGISTER {
        let live = st.take_live(id);
        st.put_live(id, live);
        let stream = utf8_lossy(d.stream.as_slice());
        let consumer = utf8_lossy(d.consumer.as_slice());
        let ghost p = (stream@, consumer@);
        st.names.insert(id, (stream, consumer));
        proof {
            assert(st@.names =~= st0.names.insert(id, p));
            assert(st@.slots =~= st0.slots.insert(id, st0.live(id)));
        }
    } else if d.op == OP_RECORD {
        if ttl_cutoff > 0 && ts < ttl_cutoff {
            return;
        }
        let mut live = st.take_live(id);
        live.insert(d.seq, ts);
        st.put_live(id, live);
        assert(st@ =~= st0.apply(d@, ttl_cutoff));
    } else if d.op == OP_CONFIRM || d.op == OP_EXPIRE {
        let mut live = st.take_live(id);
        live.remove(&d.seq);
        st.put_live(id, live);
        assert(st@ =~= st0.apply(d@, ttl_cutoff));
    } else if d.op == OP_CONFIRM_UP_TO {
        let mut live = st.take_live(id);
        drop_up_to(&mut live, d.seq);
        st.put_live(id, live);
        assert(st@ =~= st0.apply(d@, ttl_cutoff));
    } else if d.op == OP_TOMBSTONE {
        st.slots.remove(&id);
        st.names.remove(&id);
        proof {
            assert(st@.slots =~= st0.slots.remove(id));
            assert(st@.names =~= st0.names.remove(id));
        }
    } else if d.op == OP_SNAPSHOT {
        let mut live = st.take_live(id);
        live.clear();
        if ttl_cutoff > 0 && ts < ttl_cutoff {
            st.put_live(id, live);
            assert(st@ =~= st0.apply(d@, ttl_cutoff));
            return;
        }
        let mut i: usize = 0;
        assert(live@ =~= stamped(d.seqs@.take(0), ts));
        while i < d.seqs.len()
            invariant
                i <= d.seqs@.len(),
                live@ == stamped(d.seqs@.take(i as int), ts),
            decreases d.seqs@.len() - i,
        {
            live.insert(d.seqs[i], ts);
            proof {
                let a = d.seqs@.take(i as int);
                let b = d.seqs@.take(i + 1);
                assert forall|s: u64| #[trigger] b.contains(s) <==> (a.contains(s) || s
                    == d.seqs@[i as int]) by {
                    if a.contains(s) {
                        let j = choose|j: int| 0 <= j < a.len() && a[j] == s;
                        assert(b[j] == s);
                    }
                    assert(b[i as int] == d.seqs@[i as int]);
                    if b.contains(s) {
                        let j = choose|j: int| 0 <= j < b.len() && b[j] == s;
                        if j < i {
                            assert(a[j] == s);
                        }
                    }
                }
                assert(live@ =~= stamped(b, ts));
            }
            i = i + 1;
        }
        assert(d.seqs@.take(i as int) =~= d.seqs@);
        st.put_live(id, live);
        assert(st@ =~= st0.apply(d@, ttl_cutoff));
    }
}

/// Whether an image starts with the file magic.
pub fn check_magic(data: &[u8]) -> (r: bool)
    ensures
        r == has_magic(data@),
{
    if data.len() < 8 {
        return false;
    }
    let mut i: usize = 0;
    while i < 8
        invariant
            i <= 8 <= data@.len(),
            forall|j: int| 0 <= j < i ==> data@[j] == FILE_MAGIC@[j],
        decreases 8 - i,
    {
        if data[i] != FILE_MAGIC[i] {
            assert(data@.take(8)[i as int] != FILE_MAGIC@[i as int]);
            return false;
        }
        i = i + 1;
    }
    assert(data@.take(8) =~= FILE_MAGIC@);
    true
}

/// Scan a whole file image. Returns the state and the offset just past the
/// last valid frame.
pub fn scan_bytes(data: &[u8], ttl_cutoff: i64) -> (r: (Replayed, usize))
    ensures
        (r.0@, r.1 as int) == scan(data@, ttl_cutoff),
        r.1 <= data@.len(),
{
    let mut st = Replayed::new();
    if !check_magic(data) {
        return (st, 0);
    }
    let mut pos: usize = 8;
    while data.len() - pos >= 4
        invariant_except_break
            8 <= pos <= data@.len(),
            scan(data@, ttl_cutoff) == scan_from(data@, pos as int, st@, ttl_cutoff),
        ensures
            pos <= data@.len(),
            scan(data@, ttl_cutoff) == (st@, pos as int),
        decreases data@.len() - pos,
    {
        let plen: usize = get_u32(data, pos) as usize;
        if plen == 0 || plen > MAX_PAYLOAD {
            break ;
        }
        let room: usize = data.len() - pos;
        if room < 8 || room - 8 < plen {
            break ;
        }
        let payload = vstd::slice::slice_subrange(data, pos + 4, pos + 4 + plen);
        let want: u32 = get_u32(data, pos + 4 + plen);
        if crc32c(payload) != want {
            break ;
        }
        match decode_payload(payload) {
            Some(d) => {
                apply_replay(&mut st, &d, ttl_cutoff);
            },
            None => {
                break ;
            },
        }
        pos = pos + 8 + plen;
    }
    (st, pos)
}

// ── laws ───────────────────────────────────────────────────────────────────
/// An image that is valid to its last byte.
pub open spec fn complete(data: Seq<u8>) -> bool {
    has_magic(data) && scan(data, 0).1 == data.len()
}

/// A frame can be read back, whatever stands before and after it.
pub proof fn frame_reads_back(before: Seq<u8>, payload: Seq<u8>, after: Seq<u8>)
    requires
        0 < payload.len() <= MAX_PAYLOAD,
        record_of(payload) is Some,
    ensures
        frame_at(before + frame(payload) + after, before.len() as int) == Some(
            (record_of(payload)->0, (before.len() + 8 + payload.len()) as int),
        ),
{
    let data = before + frame(payload) + after;
    let pos = before.len() as int;
    let n = payload.len() as int;
    pow256_values();
    le_round_trip(payload.len(), 4);
    le_round_trip(crc32c_of(payload) as nat, 4);
    assert(data.subrange(pos, pos + 4) =~= le_bytes(payload.len(), 4));
    assert(data.subrange(pos + 4, pos + 4 + n) =~= payload);
    assert(data.subrange(pos + 4 + n, pos + 8 + n) =~= le_bytes(crc32c_of(payload) as nat, 4));
}

/// What stands behind a valid frame does not matter to it.
proof fn frame_at_extends(data: Seq<u8>, tail: Seq<u8>, pos: int)
    requires
        0 <= pos,
        frame_at(data, pos) is Some,
    ensures
        frame_at(data + tail, pos) == frame_at(data, pos),
        pos < (frame_at(data, pos)->0).1 <= data.len(),
{
    let all = data + tail;
    let plen = le_value(data.subrange(pos, pos + 4)) as int;
    assert(all.subrange(pos, pos + 4) =~= data.subrange(pos, pos + 4));
    assert(all.subrange(pos + 4, pos + 4 + plen) =~= data.subrange(pos + 4, pos + 4 + plen));
    assert(all.subrange(pos + 4 + plen, pos + 8 + plen) =~= data.subrange(
        pos + 4 + plen,
        pos + 8 + plen,
    ));
}

proof fn scan_from_extends(data: Seq<u8>, tail: Seq<u8>, pos: int, st: ReplayModel, cutoff: i64)
    requires
        0 <= pos <= data.len(),
        scan_from(data, pos, st, cutoff).1 == data.len(),
    ensures
        scan_from(data + tail, pos, st, cutoff) == scan_from(
            data + tail,
            data.len() as int,
            scan_from(data, pos, st, cutoff).0,
            cutoff,
        ),
    decreases data.len() - pos,
{
    match frame_at(data, pos) {
        Some((r, end)) => {
            frame_at_extends(data, tail, pos);
            scan_from_extends(data, tail, end, st.apply(r, cutoff), cutoff);
        },
        None => {},
    }
}

/// Where the valid part ends does not depend on the age filter.
proof fn scan_from_offset(
    data: Seq<u8>,
    pos: int,
    st1: ReplayModel,
    c1: i64,
    st2: ReplayModel,
    c2: i64,
)
    ensures
        scan_from(data, pos, st1, c1).1 == scan_from(data, pos, st2, c2).1,
    decreases data.len() - pos,
{
    match frame_at(data, pos) {
        Some((r, end)) => {
            if pos < end && end <= data.len() {
                scan_from_offset(data, end, st1.apply(r, c1), c1, st2.apply(r, c2), c2);
            }
        },
        None => {},
    }
}

/// Records appended to a valid image are applied after everything in it.
pub proof fn scan_extends(data: Seq<u8>, tail: Seq<u8>, cutoff: i64)
    requires
        complete(data),
    ensures
        has_magic(data + tail),
        scan(data, cutoff).1 == data.len(),
        scan(data + tail, cutoff) == scan_from(
            data + tail,
            data.len() as int,
            scan(data, cutoff).0,
            cutoff,
        ),
{
    assert((data + tail).take(8) =~= data.take(8));
    scan_from_offset(data, 8, ReplayModel::empty(), 0, ReplayModel::empty(), cutoff);
    scan_from_extends(data, tail, 8, ReplayModel::empty(), cutoff);
}

/// Appending one framed record to a valid image applies that record to the
/// state, and leaves the image valid.
pub proof fn append_applies(data: Seq<u8>, payload: Seq<u8>, cutoff: i64)
    requires
        complete(data),
        0 < payload.len() <= MAX_PAYLOAD,
        record_of(payload) is Some,
    ensures
        complete(data + frame(payload)),
        scan(data + frame(payload), cutoff).0 == scan(data, cutoff).0.apply(
            record_of(payload)->0,
            cutoff,
        ),
{
    let all = data + frame(payload);
    let r = record_of(payload)->0;
    scan_extends(data, frame(payload), cutoff);
    scan_extends(data, frame(payload), 0);
    frame_reads_back(data, payload, Seq::empty());
    assert(data + frame(payload) + Seq::<u8>::empty() =~= all);
    assert(all.len() == data.len() + 8 + payload.len());
    assert(frame_at(all, all.len() as int) is None);
    reveal_with_fuel(scan_from, 3);
}

/// A torn write is as if it never happened: an image followed by part of a
/// frame holds what the image holds, and the valid part ends where the image
/// does.
pub proof fn torn_tail_is_ignored(data: Seq<u8>, payload: Seq<u8>, n: int, cutoff: i64)
    requires
        complete(data),
        payload.len() <= MAX_PAYLOAD,
        0 <= n < frame(payload).len(),
    ensures
        scan(data + frame(payload).take(n), cutoff) == scan(data, cutoff),
{
    let tail = frame(payload).take(n);
    let all = data + tail;
    scan_extends(data, tail, cutoff);
    pow256_values();
    le_round_trip(payload.len(), 4);
    if n >= 4 {
        assert(all.subrange(data.len() as int, data.len() as int + 4) =~= le_bytes(payload.len(), 4));
    }
    assert(frame_at(all, data.len() as int) is None);
}

/// Whatever follows a valid image, the records in it are still read first.
pub proof fn valid_prefix_survives(data: Seq<u8>, tail: Seq<u8>, cutoff: i64)
    requires
        complete(data),
    ensures
        scan(data + tail, cutoff).1 >= data.len(),
{
    scan_extends(data, tail, cutoff);
    scan_from_advances(data + tail, data.len() as int, scan(data, cutoff).0, cutoff);
}

proof fn scan_from_advances(data: Seq<u8>, pos: int, st: ReplayModel, cutoff: i64)
    requires
        0 <= pos <= data.len(),
    ensures
        pos <= scan_from(data, pos, st, cutoff).1 <= data.len(),
    decreases data.len() - pos,
{
    match frame_at(data, pos) {
        Some((r, end)) => {
            if pos < end && end <= data.len() {
                scan_from_advances(data, end, st.apply(r, cutoff), cutoff);
            }
        },
        None => {},
    }
}

proof fn scan_from_truncated(data: Seq<u8>, good: int, pos: int, st: ReplayModel, cutoff: i64)
    requires
        0 <= pos <= good <= data.len(),
        scan_from(data, pos, st, cutoff).1 == good,
    ensures
        scan_from(data.take(good), pos, st, cutoff) == scan_from(data, pos, st, cutoff),
    decreases data.len() - pos,
{
    let t = data.take(good);
    match frame_at(data, pos) {
        Some((r, end)) => {
            if pos < end && end <= data.len() {
                scan_from_advances(data, end, st.apply(r, cutoff), cutoff);
                let plen = le_value(data.subrange(pos, pos + 4)) as int;
                assert(t.subrange(pos, pos + 4) =~= data.subrange(pos, pos + 4));
                assert(t.subrange(pos + 4, pos + 4 + plen) =~= data.subrange(
                    pos + 4,
                    pos + 4 + plen,
                ));
                assert(t.subrange(pos + 4 + plen, pos + 8 + plen) =~= data.subrange(
                    pos + 4 + plen,
                    pos + 8 + plen,
                ));
                scan_from_truncated(data, good, end, st.apply(r, cutoff), cutoff);
            }
        },
        None => {
            assert(frame_at(t, pos) is None);
        },
    }
}

/// Cutting an image at the end of its valid part keeps what it holds and
/// leaves it valid.
pub proof fn truncation_is_harmless(data: Seq<u8>, cutoff: i64)
    requires
        has_magic(data),
    ensures
        8 <= scan(data, cutoff).1 <= data.len(),
        complete(data.take(scan(data, cutoff).1)),
        scan(data.take(scan(data, cutoff).1), cutoff) == scan(data, cutoff),
{
    let good = scan(data, cutoff).1;
    scan_from_advances(data, 8, ReplayModel::empty(), cutoff);
    assert(data.take(good).take(8) =~= data.take(8));
    scan_from_truncated(data, good, 8, ReplayModel::empty(), cutoff);
    scan_from_offset(data.take(good), 8, ReplayModel::empty(), 0, ReplayModel::empty(), cutoff);
}

/// Nothing older than a positive cutoff comes back from a log.
pub open spec fn all_since(st: ReplayModel, cutoff: i64) -> bool {
    forall|id: u32, seq: u64|
        #![trigger st.slots[id].contains_key(seq)]
        st.slots.contains_key(id) && st.slots[id].contains_key(seq) ==> st.slots[id][seq] >= cutoff
}

proof fn apply_since(st: ReplayModel, r: LogRecord, cutoff: i64)
    requires
        cutoff > 0,
        all_since(st, cutoff),
    ensures
        all_since(st.apply(r, cutoff), cutoff),
{
}

proof fn scan_from_since(data: Seq<u8>, pos: int, st: ReplayModel, cutoff: i64)
    requires
        cutoff > 0,
        all_since(st, cutoff),
    ensures
        all_since(scan_from(data, pos, st, cutoff).0, cutoff),
    decreases data.len() - pos,
{
    match frame_at(data, pos) {
        Some((r, end)) => {
            if pos < end && end <= data.len() {
                apply_since(st, r, cutoff);
                scan_from_since(data, end, st.apply(r, cutoff), cutoff);
            }
        },
        None => {},
    }
}

/// With an age limit, a restart brings back no recording older than it.
pub proof fn expired_stays_gone(data: Seq<u8>, cutoff: i64)
    requires
        cutoff > 0,
    ensures
        all_since(scan(data, cutoff).0, cutoff),
{
    scan_from_since(data, 8, ReplayModel::empty(), cutoff);
}

/// When sequence number `seq` of a slot was recorded, if it is live.
pub open spec fn entry(st: ReplayModel, id: u32, seq: u64) -> Option<i64> {
    if st.slots.contains_key(id) && st.slots[id].contains_key(seq) {
        Some(st.slots[id][seq])
    } else {
        None
    }
}

/// `st` is `full` without some entries older than the cutoff.
pub open spec fn only_old_missing(full: ReplayModel, st: ReplayModel, cutoff: i64) -> bool {
    &&& st.names == full.names
    &&& forall|id: u32, seq: u64|
        #![trigger entry(st, id, seq)]
        #![trigger entry(full, id, seq)]
        match entry(full, id, seq) {
            Some(ts) => {
                &&& ts >= cutoff ==> entry(st, id, seq) == Some(ts)
                &&& entry(st, id, seq) matches Some(kept) ==> kept >= cutoff
            },
            None => entry(st, id, seq) is None,
        }
}

proof fn apply_drops_only_old(full: ReplayModel, st: ReplayModel, r: LogRecord, cutoff: i64)
    requires
        cutoff > 0,
        only_old_missing(full, st, cutoff),
    ensures
        only_old_missing(full.apply(r, 0), st.apply(r, cutoff), cutoff),
{
    let f1 = full.apply(r, 0);
    let s1 = st.apply(r, cutoff);
    assert forall|id: u32, seq: u64|
        #![trigger entry(s1, id, seq)]
        #![trigger entry(f1, id, seq)]
        match entry(f1, id, seq) {
            Some(ts) => {
                &&& ts >= cutoff ==> entry(s1, id, seq) == Some(ts)
                &&& entry(s1, id, seq) matches Some(kept) ==> kept >= cutoff
            },
            None => entry(s1, id, seq) is None,
        } by {
        let a = entry(full, id, seq);
        let b = entry(st, id, seq);
    }
}

proof fn scan_from_drops_only_old(
    data: Seq<u8>,
    pos: int,
    full: ReplayModel,
    st: ReplayModel,
    cutoff: i64,
)
    requires
        cutoff > 0,
        only_old_missing(full, st, cutoff),
    ensures
        only_old_missing(
            scan_from(data, pos, full, 0).0,
            scan_from(data, pos, st, cutoff).0,
            cutoff,
        ),
    decreases data.len() - pos,
{
    match frame_at(data, pos) {
        Some((r, end)) => {
            if pos < end && end <= data.len() {
                apply_drops_only_old(full, st, r, cutoff);
                scan_from_drops_only_old(data, end, full.apply(r, 0), st.apply(r, cutoff), cutoff);
            }
        },
        None => {},
    }
}

/// An age limit takes away only what is too old: what a log holds without a
/// limit and is not older than the cutoff comes back with the limit too, with
/// the same time. Nothing comes back that the log does not hold, and the names
/// of the slots do not depend on the limit.
pub proof fn age_limit_takes_only_the_old(data: Seq<u8>, cutoff: i64)
    requires
        cutoff > 0,
    ensures
        scan(data, cutoff).0.names == scan(data, 0).0.names,
        forall|id: u32, seq: u64| #[trigger]
            entry(scan(data, 0).0, id, seq) matches Some(ts) && ts >= cutoff ==> entry(
                scan(data, cutoff).0,
                id,
                seq,
            ) == entry(scan(data, 0).0, id, seq),
        forall|id: u32, seq: u64| #[trigger]
            entry(scan(data, cutoff).0, id, seq) is Some ==> entry(scan(data, 0).0, id, seq) is Some,
{
    let e = ReplayModel::empty();
    assert(only_old_missing(e, e, cutoff));
    scan_from_drops_only_old(data, 8, e, e, cutoff);
}

proof fn scan_from_without_limit(data: Seq<u8>, pos: int, st: ReplayModel, cutoff: i64)
    requires
        cutoff <= 0,
    ensures
        scan_from(data, pos, st, cutoff) == scan_from(data, pos, st, 0),
    decreases data.len() - pos,
{
    match frame_at(data, pos) {
        Some((r, end)) => {
            if pos < end && end <= data.len() {
                assert(st.apply(r, cutoff) == st.apply(r, 0));
                scan_from_without_limit(data, end, st.apply(r, 0), cutoff);
            }
        },
        None => {},
    }
}

/// A cutoff that is not positive limits nothing.
pub proof fn no_limit_takes_nothing(data: Seq<u8>, cutoff: i64)
    requires
        cutoff <= 0,
    ensures
        scan(data, cutoff) == scan(data, 0),
{
    scan_from_without_limit(data, 8, ReplayModel::empty(), cutoff);
}

/// A record that is written behind a valid log, and is not too old, is live
/// when the log is read, with its time. One that is too old is as if it had
/// not been written. Nothing else changes.
pub proof fn written_record_is_live(
    log: Seq<u8>,
    id: u32,
    ts_ms: u64,
    seq: u64,
    cutoff: i64,
    other_id: u32,
    other_seq: u64,
)
    requires
        complete(log),
    ensures
        ({
            let after = log + frame(seq_payload(OP_RECORD, id, ts_ms, seq));
            let st0 = scan(log, cutoff).0;
            let st = scan(after, cutoff).0;
            &&& complete(after)
            &&& st.names == st0.names
            &&& (cutoff <= 0 || ts_ms as i64 >= cutoff) ==> entry(st, id, seq) == Some(
                ts_ms as i64,
            )
            &&& (cutoff > 0 && (ts_ms as i64) < cutoff) ==> st == st0
            &&& (other_id, other_seq) != (id, seq) ==> entry(st, other_id, other_seq) == entry(
                st0,
                other_id,
                other_seq,
            )
        }),
{
    seq_op_round_trip(OP_RECORD, id, ts_ms, seq);
    append_applies(log, seq_payload(OP_RECORD, id, ts_ms, seq), cutoff);
}

/// A confirmation or an expiry that is written behind a valid log ends what it
/// names, and nothing else.
pub proof fn written_confirm_ends_its_entry(
    log: Seq<u8>,
    op: u8,
    id: u32,
    ts_ms: u64,
    seq: u64,
    cutoff: i64,
    other_id: u32,
    other_seq: u64,
)
    requires
        complete(log),
        op == OP_CONFIRM || op == OP_EXPIRE,
    ensures
        ({
            let after = log + frame(seq_payload(op, id, ts_ms, seq));
            let st0 = scan(log, cutoff).0;
            let st = scan(after, cutoff).0;
            &&& complete(after)
            &&& st.names == st0.names
            &&& entry(st, id, seq) is None
            &&& (other_id, other_seq) != (id, seq) ==> entry(st, other_id, other_seq) == entry(
                st0,
                other_id,
                other_seq,
            )
        }),
{
    seq_op_round_trip(op, id, ts_ms, seq);
    append_applies(log, seq_payload(op, id, ts_ms, seq), cutoff);
}

/// A cursor that is written behind a valid log ends everything at or below it
/// in its slot, and nothing else.
pub proof fn written_cursor_ends_what_is_below(
    log: Seq<u8>,
    id: u32,
    ts_ms: u64,
    cursor: u64,
    cutoff: i64,
    other_id: u32,
    other_seq: u64,
)
    requires
        complete(log),
    ensures
        ({
            let after = log + frame(seq_payload(OP_CONFIRM_UP_TO, id, ts_ms, cursor));
            let st0 = scan(log, cutoff).0;
            let st = scan(after, cutoff).0;
            &&& complete(after)
            &&& st.names == st0.names
            &&& entry(st, other_id, other_seq) == if other_id == id && other_seq <= cursor {
                None
            } else {
                entry(st0, other_id, other_seq)
            }
        }),
{
    seq_op_round_trip(OP_CONFIRM_UP_TO, id, ts_ms, cursor);
    append_applies(log, seq_payload(OP_CONFIRM_UP_TO, id, ts_ms, cursor), cutoff);
}

/// A tombstone that is written behind a valid log ends its slot, with its
/// name, and no other.
pub proof fn written_tombstone_ends_its_slot(
    log: Seq<u8>,
    id: u32,
    ts_ms: u64,
    cutoff: i64,
    other_id: u32,
    other_seq: u64,
)
    requires
        complete(log),
    ensures
        ({
            let after = log + frame(tombstone_payload(id, ts_ms));
            let st0 = scan(log, cutoff).0;
            let st = scan(after, cutoff).0;
            &&& complete(after)
            &&& st.names == st0.names.remove(id)
            &&& entry(st, other_id, other_seq) == if other_id == id {
                None
            } else {
                entry(st0, other_id, other_seq)
            }
        }),
{
    tombstone_round_trip(id, ts_ms);
    append_applies(log, tombstone_payload(id, ts_ms), cutoff);
}

/// A registration that is written behind a valid log names its slot, and ends
/// nothing.
pub proof fn written_registration_names_its_slot(
    log: Seq<u8>,
    id: u32,
    ts_ms: u64,
    stream: Seq<char>,
    consumer: Seq<char>,
    cutoff: i64,
    other_id: u32,
    other_seq: u64,
)
    requires
        complete(log),
        encode_utf8(stream).len() <= 65535,
        encode_utf8(consumer).len() <= 65535,
    ensures
        ({
            let after = log + frame(
                register_payload(id, ts_ms, encode_utf8(stream), encode_utf8(consumer)),
            );
            let st0 = scan(log, cutoff).0;
            let st = scan(after, cutoff).0;
            &&& complete(after)
            &&& st.names == st0.names.insert(id, (stream, consumer))
            &&& st.slots.contains_key(id)
            &&& entry(st, other_id, other_seq) == entry(st0, other_id, other_seq)
        }),
{
    register_round_trip(id, ts_ms, encode_utf8(stream), encode_utf8(consumer));
    text_round_trip(stream);
    text_round_trip(consumer);
    append_applies(
        log,
        register_payload(id, ts_ms, encode_utf8(stream), encode_utf8(consumer)),
        cutoff,
    );
}

/// A snapshot that is written behind a valid log, and is not too old, makes
/// exactly what it lists live in its slot, with its time. Of one that is too
/// old nothing is live. No other slot changes.
pub proof fn written_snapshot_is_what_is_live(
    log: Seq<u8>,
    id: u32,
    ts_ms: u64,
    min_seq: u64,
    max_seq: u64,
    seqs: Seq<u64>,
    cutoff: i64,
    other_id: u32,
    other_seq: u64,
)
    requires
        complete(log),
        33 + 8 * seqs.len() <= MAX_PAYLOAD,
    ensures
        ({
            let after = log + frame(snapshot_payload(id, ts_ms, min_seq, max_seq, seqs));
            let st0 = scan(log, cutoff).0;
            let st = scan(after, cutoff).0;
            &&& complete(after)
            &&& st.names == st0.names
            &&& entry(st, other_id, other_seq) == if other_id != id {
                entry(st0, other_id, other_seq)
            } else if seqs.contains(other_seq) && (cutoff <= 0 || ts_ms as i64 >= cutoff) {
                Some(ts_ms as i64)
            } else {
                None
            }
        }),
{
    snapshot_round_trip(id, ts_ms, min_seq, max_seq, seqs);
    append_applies(log, snapshot_payload(id, ts_ms, min_seq, max_seq, seqs), cutoff);
}

/// A log that has just been started is valid and holds nothing.
pub proof fn fresh_log_is_empty(cutoff: i64)
    ensures
        complete(FILE_MAGIC@),
        scan(FILE_MAGIC@, cutoff).0 == ReplayModel::empty(),
{
    assert(FILE_MAGIC@.take(8) =~= FILE_MAGIC@);
    assert(frame_at(FILE_MAGIC@, 8) is None);
}

/// A frame in whose payload a byte has changed is not read, whatever stands
/// before and after it.
pub proof fn corrupted_frame_is_not_read(
    before: Seq<u8>,
    payload: Seq<u8>,
    after: Seq<u8>,
    i: int,
    b: u8,
)
    requires
        0 < payload.len() <= MAX_PAYLOAD,
        0 <= i < payload.len(),
        b != payload[i],
    ensures
        frame_at(before + frame(payload).update(4 + i, b) + after, before.len() as int) is None,
{
    let data = before + frame(payload).update(4 + i, b) + after;
    let pos = before.len() as int;
    let n = payload.len() as int;
    pow256_values();
    le_round_trip(payload.len(), 4);
    le_round_trip(crc32c_of(payload) as nat, 4);
    changed_byte_changes_checksum(payload, i, b);
    assert(data.subrange(pos, pos + 4) =~= le_bytes(payload.len(), 4));
    assert(data.subrange(pos + 4, pos + 4 + n) =~= payload.update(i, b));
    assert(data.subrange(pos + 4 + n, pos + 8 + n) =~= le_bytes(crc32c_of(payload) as nat, 4));
}

/// A corrupted record is as if the log ended before it: what stands before it
/// is read, and neither it nor anything behind it is.
pub proof fn corruption_ends_the_log(
    log: Seq<u8>,
    payload: Seq<u8>,
    after: Seq<u8>,
    i: int,
    b: u8,
    cutoff: i64,
)
    requires
        complete(log),
        0 < payload.len() <= MAX_PAYLOAD,
        0 <= i < payload.len(),
        b != payload[i],
    ensures
        scan(log + (frame(payload).update(4 + i, b) + after), cutoff) == scan(log, cutoff),
{
    let tail = frame(payload).update(4 + i, b) + after;
    scan_extends(log, tail, cutoff);
    corrupted_frame_is_not_read(log, payload, after, i, b);
    assert(log + tail =~= log + frame(payload).update(4 + i, b) + after);
}

/// A file that does not start with the magic `ARBWAL01` holds nothing, and
/// nothing of it is kept.
pub proof fn foreign_file_holds_nothing(data: Seq<u8>, cutoff: i64)
    requires
        data.len() < 8 || data.take(8) != seq![
            0x41u8,
            0x52u8,
            0x42u8,
            0x57u8,
            0x41u8,
            0x4Cu8,
            0x30u8,
            0x31u8,
        ],
    ensures
        scan(data, cutoff).0 == ReplayModel::empty(),
        scan(data, cutoff).1 == 0,
{
    assert(FILE_MAGIC@ =~= seq![0x41u8, 0x52u8, 0x42u8, 0x57u8, 0x41u8, 0x4Cu8, 0x30u8, 0x31u8]);
}

} // verus!
