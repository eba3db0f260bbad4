//! Log format of the delivered-set store.
//!
//! The file starts with an 8-byte magic, then holds length-framed records:
//!
//! ```text
//! [len u32 LE][payload len bytes][crc32c u32 LE over payload]
//! ```
//!
//! `payload[0]` is the op byte. Length framing lets one reader loop handle
//! every op and notice a torn write at the tail; the checksum notices a
//! corrupted record.

use crate::le::{
    get_u16, get_u32, get_u64, le_bytes, le_bytes_len, le_bytes_split, le_bytes_truncates,
    le_round_trip, le_value, le_value_round_trip, pow256_values, push_u16, push_u32, push_u64,
};
use vstd::prelude::*;

verus! {

broadcast use le_bytes_len;

/// File magic: "ARBWAL01".
pub const FILE_MAGIC: [u8; 8] = [0x41, 0x52, 0x42, 0x57, 0x41, 0x4C, 0x30, 0x31];

/// (slot_id, ts, stream, consumer)
pub const OP_REGISTER: u8 = 1;

/// (slot_id, ts, seq): the handler ran
pub const OP_RECORD: u8 = 2;

/// (slot_id, ts, seq): the broker has the ack, drop
pub const OP_CONFIRM: u8 = 3;

/// (slot_id, ts, seq): swept for age, drop
pub const OP_EXPIRE: u8 = 4;

/// (slot_id, ts): forget the slot
pub const OP_TOMBSTONE: u8 = 5;

/// (slot_id, ts, min, max, count, seqs)
pub const OP_SNAPSHOT: u8 = 6;

/// (slot_id, ts, cursor): drop everything at or below the cursor
pub const OP_CONFIRM_UP_TO: u8 = 7;

pub const FRAME_LEN_SIZE: usize = 4;

pub const FRAME_CRC_SIZE: usize = 4;

pub const FRAME_OVERHEAD: usize = 8;

/// op + slot + ts + seq
pub const SEQ_PAYLOAD_SIZE: usize = 21;

/// op + slot + ts
pub const TOMB_PAYLOAD_SIZE: usize = 13;

/// op + slot + ts + stream length + consumer length
pub const REG_FIXED_PREFIX: usize = 17;

/// op + slot + ts + min + max + count
pub const SNAP_FIXED_PREFIX: usize = 33;

/// Castagnoli polynomial, reflected.
pub const CRC32C_POLY: u32 = 0x82F6_3B78;

// ── checksum ───────────────────────────────────────────────────────────────
/// `n` rounds of the bitwise division by the polynomial.
pub open spec fn crc_rounds(x: u32, n: nat) -> u32
    decreases n,
{
    if n == 0 {
        x
    } else {
        crc_rounds(
            if x & 1 != 0 {
                (x >> 1) ^ CRC32C_POLY
            } else {
                x >> 1
            },
            (n - 1) as nat,
        )
    }
}

/// The running remainder after `data`.
pub open spec fn crc_remainder(data: Seq<u8>) -> u32
    decreases data.len(),
{
    if data.len() == 0 {
        0xFFFF_FFFF
    } else {
        let c = crc_remainder(data.drop_last());
        (c >> 8) ^ crc_rounds((c ^ (data.last() as u32)) & 0xFF, 8)
    }
}

/// CRC-32C of `data`.
pub open spec fn crc32c_of(data: Seq<u8>) -> u32 {
    crc_remainder(data) ^ 0xFFFF_FFFF
}

/// CRC-32C (Castagnoli) of `data`.
pub fn crc32c(data: &[u8]) -> (r: u32)
    ensures
        r == crc32c_of(data@),
{
    let mut crc: u32 = 0xFFFF_FFFF;
    let mut i: usize = 0;
    while i < data.len()
        invariant
            i <= data@.len(),
            crc == crc_remainder(data@.take(i as int)),
        decreases data@.len() - i,
    {
        let mut x: u32 = (crc ^ (data[i] as u32)) & 0xFF;
        let ghost start = x;
        let mut j: usize = 0;
        while j < 8
            invariant
                j <= 8,
                crc_rounds(start, 8) == crc_rounds(x, (8 - j) as nat),
            decreases 8 - j,
        {
            x = if x & 1 != 0 {
                (x >> 1) ^ CRC32C_POLY
            } else {
                x >> 1
            };
            j = j + 1;
        }
        proof {
            assert(data@.take(i + 1).drop_last() =~= data@.take(i as int));
        }
        crc = (crc >> 8) ^ x;
        i = i + 1;
    }
    assert(data@.take(i as int) =~= data@);
    crc ^ 0xFFFF_FFFF
}

// ── payloads and frames ────────────────────────────────────────────────────
/// A payload with its length prefix and checksum suffix.
pub open spec fn frame(payload: Seq<u8>) -> Seq<u8> {
    le_bytes(payload.len(), 4) + payload + le_bytes(crc32c_of(payload) as nat, 4)
}

/// Payload of a record, confirm, expire or confirm-up-to (whose `seq` is the
/// cursor).
pub open spec fn seq_payload(op: u8, slot_id: u32, ts_ms: u64, seq: u64) -> Seq<u8> {
    seq![op] + le_bytes(slot_id as nat, 4) + le_bytes(ts_ms as nat, 8) + le_bytes(seq as nat, 8)
}

/// Payload of a tombstone.
pub open spec fn tombstone_payload(slot_id: u32, ts_ms: u64) -> Seq<u8> {
    seq![OP_TOMBSTONE] + le_bytes(slot_id as nat, 4) + le_bytes(ts_ms as nat, 8)
}

/// Payload of a register.
pub open spec fn register_payload(
    slot_id: u32,
    ts_ms: u64,
    stream: Seq<u8>,
    consumer: Seq<u8>,
) -> Seq<u8> {
    seq![OP_REGISTER] + le_bytes(slot_id as nat, 4) + le_bytes(ts_ms as nat, 8) + le_bytes(
        stream.len(),
        2,
    ) + le_bytes(consumer.len(), 2) + stream + consumer
}

/// The bytes of a list of sequence numbers.
pub open spec fn seqs_bytes(seqs: Seq<u64>) -> Seq<u8>
    decreases seqs.len(),
{
    if seqs.len() == 0 {
        Seq::empty()
    } else {
        seqs_bytes(seqs.drop_last()) + le_bytes(seqs.last() as nat, 8)
    }
}

/// Payload of a snapshot.
pub open spec fn snapshot_payload(
    slot_id: u32,
    ts_ms: u64,
    min_seq: u64,
    max_seq: u64,
    seqs: Seq<u64>,
) -> Seq<u8> {
    seq![OP_SNAPSHOT] + le_bytes(slot_id as nat, 4) + le_bytes(ts_ms as nat, 8) + le_bytes(
        min_seq as nat,
        8,
    ) + le_bytes(max_seq as nat, 8) + le_bytes(seqs.len(), 4) + seqs_bytes(seqs)
}

pub fn record_frame_size() -> (r: usize)
    ensures
        r == 29,
{
    FRAME_OVERHEAD + SEQ_PAYLOAD_SIZE
}

pub fn tombstone_frame_size() -> (r: usize)
    ensures
        r == 21,
{
    FRAME_OVERHEAD + TOMB_PAYLOAD_SIZE
}

pub fn register_frame_size(stream_len: usize, consumer_len: usize) -> (r: usize)
    requires
        25 + stream_len + consumer_len <= usize::MAX,
    ensures
        r == 25 + stream_len + consumer_len,
{
    FRAME_OVERHEAD + REG_FIXED_PREFIX + stream_len + consumer_len
}

pub fn snapshot_frame_size(count: usize) -> (r: usize)
    requires
        41 + 8 * count <= usize::MAX,
    ensures
        r == 41 + 8 * count,
{
    FRAME_OVERHEAD + SNAP_FIXED_PREFIX + count * 8
}

// ── encoders: write a full framed record into `dst`, return bytes written ──
/// `s` with `b` written over it at `at`.
pub open spec fn splice(s: Seq<u8>, at: int, b: Seq<u8>) -> Seq<u8> {
    s.take(at) + b + s.skip(at + b.len())
}

fn put_bytes(dst: &mut [u8], at: usize, src: &[u8])
    requires
        at + src@.len() <= old(dst)@.len(),
    ensures
        final(dst)@ == splice(old(dst)@, at as int, src@),
{
    assert(dst@.len() == dst.len());
    let mut i: usize = 0;
    while i < src.len()
        invariant
            i <= src@.len(),
            at + src@.len() <= old(dst)@.len(),
            old(dst)@.len() <= usize::MAX,
            dst@ == splice(old(dst)@, at as int, src@.take(i as int)),
        decreases src@.len() - i,
    {
        dst[at + i] = src[i];
        i = i + 1;
        assert(dst@ =~= splice(old(dst)@, at as int, src@.take(i as int)));
    }
    assert(src@.take(i as int) =~= src@);
}

/// Two adjacent writes are one write.
proof fn splice_splice(s: Seq<u8>, at: int, a: Seq<u8>, b: Seq<u8>)
    requires
        0 <= at,
        at + a.len() + b.len() <= s.len(),
    ensures
        splice(splice(s, at, a), at + a.len(), b) == splice(s, at, a + b),
{
    assert(splice(splice(s, at, a), at + a.len(), b) =~= splice(s, at, a + b));
}

fn put_u16(dst: &mut [u8], at: usize, x: u16)
    requires
        at + 2 <= old(dst)@.len(),
    ensures
        final(dst)@ == splice(old(dst)@, at as int, le_bytes(x as nat, 2)),
{
    assert(dst@.len() == dst.len());
    dst[at] = (x % 256) as u8;
    dst[at + 1] = (x / 256) as u8;
    proof {
        reveal_with_fuel(le_bytes, 3);
        assert((x / 256) % 256 == x / 256);
        assert(dst@ =~= splice(old(dst)@, at as int, le_bytes(x as nat, 2)));
    }
}

fn put_u32(dst: &mut [u8], at: usize, x: u32)
    requires
        at + 4 <= old(dst)@.len(),
    ensures
        final(dst)@ == splice(old(dst)@, at as int, le_bytes(x as nat, 4)),
{
    assert(dst@.len() == dst.len());
    put_u16(dst, at, (x % 0x1_0000) as u16);
    put_u16(dst, at + 2, (x / 0x1_0000) as u16);
    proof {
        pow256_values();
        le_bytes_split(x as nat, 2, 2);
        le_bytes_truncates(x as nat, 2);
        splice_splice(
            old(dst)@,
            at as int,
            le_bytes((x % 0x1_0000) as nat, 2),
            le_bytes((x / 0x1_0000) as nat, 2),
        );
    }
}

fn put_u64(dst: &mut [u8], at: usize, x: u64)
    requires
        at + 8 <= old(dst)@.len(),
    ensures
        final(dst)@ == splice(old(dst)@, at as int, le_bytes(x as nat, 8)),
{
    assert(dst@.len() == dst.len());
    put_u32(dst, at, (x % 0x1_0000_0000) as u32);
    put_u32(dst, at + 4, (x / 0x1_0000_0000) as u32);
    proof {
        pow256_values();
        le_bytes_split(x as nat, 4, 4);
        le_bytes_truncates(x as nat, 4);
        splice_splice(
            old(dst)@,
            at as int,
            le_bytes((x % 0x1_0000_0000) as nat, 4),
            le_bytes((x / 0x1_0000_0000) as nat, 4),
        );
    }
}

/// Stamp the length prefix and checksum suffix around a payload already
/// written at `dst[4..4 + plen]`. Returns the total frame size.
pub fn frame_finish(dst: &mut [u8], plen: usize) -> (r: usize)
    requires
        plen + FRAME_OVERHEAD <= old(dst)@.len(),
    ensures
        r == plen + FRAME_OVERHEAD,
        final(dst)@ == splice(old(dst)@, 0, frame(old(dst)@.subrange(4, 4 + plen))),
{
    assert(dst@.len() == dst.len());
    let crc: u32 = crc32c(vstd::slice::slice_subrange(dst, FRAME_LEN_SIZE, FRAME_LEN_SIZE + plen));
    let ghost payload = old(dst)@.subrange(4, 4 + plen);
    put_u32(dst, 0, (plen as u64 % 0x1_0000_0000) as u32);
    put_u32(dst, FRAME_LEN_SIZE + plen, crc);
    proof {
        pow256_values();
        le_bytes_truncates(plen as nat, 4);
        assert(dst@ =~= splice(old(dst)@, 0, frame(payload)));
    }
    FRAME_LEN_SIZE + plen + FRAME_CRC_SIZE
}

/// Encode a record, confirm, expire or confirm-up-to frame (whose `seq` is
/// the cursor).
pub fn encode_seq_op(dst: &mut [u8], op: u8, slot_id: u32, ts_ms: u64, seq: u64) -> (r: usize)
    requires
        old(dst)@.len() >= 29,
    ensures
        r == 29,
        final(dst)@ == splice(old(dst)@, 0, frame(seq_payload(op, slot_id, ts_ms, seq))),
{
    dst[FRAME_LEN_SIZE] = op;
    put_u32(dst, 5, slot_id);
    put_u64(dst, 9, ts_ms);
    put_u64(dst, 17, seq);
    let ghost mid = dst@;
    proof {
        assert(mid.subrange(4, 25) =~= seq_payload(op, slot_id, ts_ms, seq));
    }
    let n: usize = frame_finish(dst, SEQ_PAYLOAD_SIZE);
    proof {
        assert(dst@ =~= splice(old(dst)@, 0, frame(seq_payload(op, slot_id, ts_ms, seq))));
    }
    n
}

/// Encode a tombstone frame.
pub fn encode_tombstone(dst: &mut [u8], slot_id: u32, ts_ms: u64) -> (r: usize)
    requires
        old(dst)@.len() >= 21,
    ensures
        r == 21,
        final(dst)@ == splice(old(dst)@, 0, frame(tombstone_payload(slot_id, ts_ms))),
{
    dst[FRAME_LEN_SIZE] = OP_TOMBSTONE;
    put_u32(dst, 5, slot_id);
    put_u64(dst, 9, ts_ms);
    let ghost mid = dst@;
    proof {
        assert(mid.subrange(4, 17) =~= tombstone_payload(slot_id, ts_ms));
    }
    let n: usize = frame_finish(dst, TOMB_PAYLOAD_SIZE);
    proof {
        assert(dst@ =~= splice(old(dst)@, 0, frame(tombstone_payload(slot_id, ts_ms))));
    }
    n
}

/// Encode a register frame. The two length fields hold the low 16 bits of the
/// name lengths.
pub fn encode_register(
    dst: &mut [u8],
    slot_id: u32,
    ts_ms: u64,
    stream: &[u8],
    consumer: &[u8],
) -> (r: usize)
    requires
        old(dst)@.len() >= 25 + stream@.len() + consumer@.len(),
    ensures
        r == 25 + stream@.len() + consumer@.len(),
        final(dst)@ == splice(
            old(dst)@,
            0,
            frame(register_payload(slot_id, ts_ms, stream@, consumer@)),
        ),
{
    assert(dst@.len() == dst.len());
    let plen: usize = REG_FIXED_PREFIX + stream.len() + consumer.len();
    dst[FRAME_LEN_SIZE] = OP_REGISTER;
    put_u32(dst, 5, slot_id);
    put_u64(dst, 9, ts_ms);
    put_u16(dst, 17, (stream.len() % 0x1_0000) as u16);
    put_u16(dst, 19, (consumer.len() % 0x1_0000) as u16);
    put_bytes(dst, 21, stream);
    put_bytes(dst, 21 + stream.len(), consumer);
    let ghost mid = dst@;
    proof {
        pow256_values();
        le_bytes_truncates(stream@.len(), 2);
        le_bytes_truncates(consumer@.len(), 2);
        assert(mid.subrange(4, 4 + plen) =~= register_payload(slot_id, ts_ms, stream@, consumer@));
    }
    let n: usize = frame_finish(dst, plen);
    proof {
        assert(dst@ =~= splice(
            old(dst)@,
            0,
            frame(register_payload(slot_id, ts_ms, stream@, consumer@)),
        ));
    }
    n
}

pub proof fn seqs_bytes_len(seqs: Seq<u64>)
    ensures
        seqs_bytes(seqs).len() == 8 * seqs.len(),
    decreases seqs.len(),
{
    if seqs.len() > 0 {
        seqs_bytes_len(seqs.drop_last());
    }
}

/// Encode a snapshot frame.
pub fn encode_snapshot(
    dst: &mut [u8],
    slot_id: u32,
    ts_ms: u64,
    min_seq: u64,
    max_seq: u64,
    seqs: &[u64],
) -> (r: usize)
    requires
        old(dst)@.len() >= 41 + 8 * seqs@.len(),
    ensures
        r == 41 + 8 * seqs@.len(),
        final(dst)@ == splice(
            old(dst)@,
            0,
            frame(snapshot_payload(slot_id, ts_ms, min_seq, max_seq, seqs@)),
        ),
{
    assert(dst@.len() == dst.len());
    let plen: usize = SNAP_FIXED_PREFIX + seqs.len() * 8;
    dst[FRAME_LEN_SIZE] = OP_SNAPSHOT;
    put_u32(dst, 5, slot_id);
    put_u64(dst, 9, ts_ms);
    put_u64(dst, 17, min_seq);
    put_u64(dst, 25, max_seq);
    put_u32(dst, 33, (seqs.len() as u64 % 0x1_0000_0000) as u32);
    let ghost head = dst@;
    proof {
        assert(head.len() == old(dst)@.len());
    }
    let mut i: usize = 0;
    while i < seqs.len()
        invariant
            i <= seqs@.len(),
            41 + 8 * seqs@.len() <= head.len() <= usize::MAX,
            dst@.len() == head.len(),
            dst@ == splice(head, 37, seqs_bytes(seqs@.take(i as int))),
            seqs_bytes(seqs@.take(i as int)).len() == 8 * i,
        decreases seqs@.len() - i,
    {
        put_u64(dst, 37 + 8 * i, seqs[i]);
        proof {
            assert(seqs@.take(i + 1).drop_last() =~= seqs@.take(i as int));
            splice_splice(
                head,
                37,
                seqs_bytes(seqs@.take(i as int)),
                le_bytes(seqs@[i as int] as nat, 8),
            );
        }
        i = i + 1;
    }
    let ghost mid = dst@;
    proof {
        pow256_values();
        le_bytes_truncates(seqs@.len(), 4);
        assert(seqs@.take(i as int) =~= seqs@);
        seqs_bytes_len(seqs@);
        assert(mid.subrange(4, 4 + plen) =~= snapshot_payload(
            slot_id,
            ts_ms,
            min_seq,
            max_seq,
            seqs@,
        ));
    }
    let n: usize = frame_finish(dst, plen);
    proof {
        assert(dst@ =~= splice(
            old(dst)@,
            0,
            frame(snapshot_payload(slot_id, ts_ms, min_seq, max_seq, seqs@)),
        ));
    }
    n
}

/// A payload with its length prefix and checksum suffix.
pub fn frame_of(payload: &Vec<u8>) -> (r: Vec<u8>)
    ensures
        r@ == frame(payload@),
{
    let mut out: Vec<u8> = Vec::new();
    push_u32(&mut out, (payload.len() as u64 % 0x1_0000_0000) as u32);
    out.extend_from_slice(payload.as_slice());
    push_u32(&mut out, crc32c(payload.as_slice()));
    proof {
        pow256_values();
        le_bytes_truncates(payload@.len(), 4);
        assert(out@ =~= frame(payload@));
    }
    out
}

/// A register frame in a buffer of its own.
pub fn register_frame(slot_id: u32, ts_ms: u64, stream: &[u8], consumer: &[u8]) -> (r: Vec<u8>)
    ensures
        r@ == frame(register_payload(slot_id, ts_ms, stream@, consumer@)),
{
    let mut p: Vec<u8> = Vec::new();
    p.push(OP_REGISTER);
    push_u32(&mut p, slot_id);
    push_u64(&mut p, ts_ms);
    push_u16(&mut p, (stream.len() % 0x1_0000) as u16);
    push_u16(&mut p, (consumer.len() % 0x1_0000) as u16);
    p.extend_from_slice(stream);
    p.extend_from_slice(consumer);
    proof {
        pow256_values();
        le_bytes_truncates(stream@.len(), 2);
        le_bytes_truncates(consumer@.len(), 2);
        assert(p@ =~= register_payload(slot_id, ts_ms, stream@, consumer@));
    }
    frame_of(&p)
}

/// A snapshot frame in a buffer of its own.
pub fn snapshot_frame(slot_id: u32, ts_ms: u64, min_seq: u64, max_seq: u64, seqs: &Vec<u64>) -> (r:
    Vec<u8>)
    ensures
        r@ == frame(snapshot_payload(slot_id, ts_ms, min_seq, max_seq, seqs@)),
{
    let mut p: Vec<u8> = Vec::new();
    p.push(OP_SNAPSHOT);
    push_u32(&mut p, slot_id);
    push_u64(&mut p, ts_ms);
    push_u64(&mut p, min_seq);
    push_u64(&mut p, max_seq);
    push_u32(&mut p, (seqs.len() as u64 % 0x1_0000_0000) as u32);
    let ghost head = p@;
    let mut i: usize = 0;
    assert(head + seqs_bytes(seqs@.take(0)) =~= head);
    while i < seqs.len()
        invariant
            i <= seqs@.len(),
            p@ == head + seqs_bytes(seqs@.take(i as int)),
        decreases seqs@.len() - i,
    {
        push_u64(&mut p, seqs[i]);
        proof {
            assert(seqs@.take(i + 1).drop_last() =~= seqs@.take(i as int));
            assert(p@ =~= head + seqs_bytes(seqs@.take(i + 1)));
        }
        i = i + 1;
    }
    proof {
        pow256_values();
        le_bytes_truncates(seqs@.len(), 4);
        assert(seqs@.take(i as int) =~= seqs@);
        assert(p@ =~= snapshot_payload(slot_id, ts_ms, min_seq, max_seq, seqs@));
    }
    frame_of(&p)
}

// ── decoder ────────────────────────────────────────────────────────────────
/// One log record. Only the fields relevant to its op carry meaning; the
/// others are zero or empty.
pub struct LogRecord {
    pub op: u8,
    pub slot_id: u32,
    pub ts_ms: u64,
    pub seq: u64,
    pub stream: Seq<u8>,
    pub consumer: Seq<u8>,
    pub seqs: Seq<u64>,
}

/// Parsed payload.
#[derive(Debug)]
pub struct Decoded {
    pub op: u8,
    pub slot_id: u32,
    pub ts_ms: u64,
    /// Record, confirm, expire, confirm-up-to.
    pub seq: u64,
    /// Register.
    pub stream: Vec<u8>,
    pub consumer: Vec<u8>,
    /// Snapshot.
    pub seqs: Vec<u64>,
}

impl View for Decoded {
    type V = LogRecord;

    open spec fn view(&self) -> LogRecord {
        LogRecord {
            op: self.op,
            slot_id: self.slot_id,
            ts_ms: self.ts_ms,
            seq: self.seq,
            stream: self.stream@,
            consumer: self.consumer@,
            seqs: self.seqs@,
        }
    }
}

/// The ops that carry one sequence number.
pub open spec fn is_seq_op(op: u8) -> bool {
    op == OP_RECORD || op == OP_CONFIRM || op == OP_EXPIRE || op == OP_CONFIRM_UP_TO
}

/// The number in bytes `a..b` of `p`.
pub open spec fn field(p: Seq<u8>, a: int, b: int) -> nat {
    le_value(p.subrange(a, b))
}

/// The record that a payload spells, if it is well formed.
pub open spec fn record_of(p: Seq<u8>) -> Option<LogRecord> {
    if p.len() == 0 {
        None
    } else {
        let slot_id = field(p, 1, 5) as u32;
        let ts_ms = field(p, 5, 13) as u64;
        let none8 = Seq::<u8>::empty();
        let none64 = Seq::<u64>::empty();
        if is_seq_op(p[0]) {
            if p.len() != 21 {
                None
            } else {
                Some(
                    LogRecord {
                        op: p[0],
                        slot_id,
                        ts_ms,
                        seq: field(p, 13, 21) as u64,
                        stream: none8,
                        consumer: none8,
                        seqs: none64,
                    },
                )
            }
        } else if p[0] == OP_TOMBSTONE {
            if p.len() != 13 {
                None
            } else {
                Some(
                    LogRecord {
                        op: p[0],
                        slot_id,
                        ts_ms,
                        seq: 0,
                        stream: none8,
                        consumer: none8,
                        seqs: none64,
                    },
                )
            }
        } else if p[0] == OP_REGISTER {
            let sl = field(p, 13, 15);
            let cl = field(p, 15, 17);
            if p.len() < 17 || 17 + sl + cl != p.len() {
                None
            } else {
                Some(
                    LogRecord {
                        op: p[0],
                        slot_id,
                        ts_ms,
                        seq: 0,
                        stream: p.subrange(17, 17 + sl as int),
                        consumer: p.subrange(17 + sl as int, 17 + sl as int + cl as int),
                        seqs: none64,
                    },
                )
            }
        } else if p[0] == OP_SNAPSHOT {
            let count = field(p, 29, 33);
            if p.len() < 33 || 33 + 8 * count != p.len() {
                None
            } else {
                Some(
                    LogRecord {
                        op: p[0],
                        slot_id,
                        ts_ms,
                        seq: 0,
                        stream: none8,
                        consumer: none8,
                        seqs: Seq::new(
                            count,
                            |i: int| field(p, 33 + 8 * i, 41 + 8 * i) as u64,
                        ),
                    },
                )
            }
        } else {
            None
        }
    }
}

/// Parse a checksum-validated payload. `None` if structurally invalid.
pub fn decode_payload(payload: &[u8]) -> (r: Option<Decoded>)
    ensures
        match r {
            Some(d) => record_of(payload@) == Some(d@),
            None => record_of(payload@) is None,
        },
{
    if payload.len() == 0 {
        return None;
    }
    let op: u8 = payload[0];
    let mut d = Decoded {
        op,
        slot_id: 0,
        ts_ms: 0,
        seq: 0,
        stream: Vec::new(),
        consumer: Vec::new(),
        seqs: Vec::new(),
    };
    if op == OP_RECORD || op == OP_CONFIRM || op == OP_EXPIRE || op == OP_CONFIRM_UP_TO {
        if payload.len() != SEQ_PAYLOAD_SIZE {
            return None;
        }
        d.slot_id = get_u32(payload, 1);
        d.ts_ms = get_u64(payload, 5);
        d.seq = get_u64(payload, 13);
    } else if op == OP_TOMBSTONE {
        if payload.len() != TOMB_PAYLOAD_SIZE {
            return None;
        }
        d.slot_id = get_u32(payload, 1);
        d.ts_ms = get_u64(payload, 5);
    } else if op == OP_REGISTER {
        if payload.len() < REG_FIXED_PREFIX {
            return None;
        }
        d.slot_id = get_u32(payload, 1);
        d.ts_ms = get_u64(payload, 5);
        let sl: usize = get_u16(payload, 13) as usize;
        let cl: usize = get_u16(payload, 15) as usize;
        if 17 + sl + cl != payload.len() {
            return None;
        }
        d.stream = sub_vec(payload, 17, 17 + sl);
        d.consumer = sub_vec(payload, 17 + sl, 17 + sl + cl);
    } else if op == OP_SNAPSHOT {
        if payload.len() < SNAP_FIXED_PREFIX {
            return None;
        }
        d.slot_id = get_u32(payload, 1);
        d.ts_ms = get_u64(payload, 5);
        let count: u32 = get_u32(payload, 29);
        if 33 + count as u64 * 8 != payload.len() as u64 {
            return None;
        }
        let mut seqs: Vec<u64> = Vec::new();
        let mut i: usize = 0;
        while i < count as usize
            invariant
                i <= count,
                33 + 8 * count == payload@.len(),
                payload@.len() <= usize::MAX,
                seqs@ == Seq::new(
                    i as nat,
                    |i: int| field(payload@, 33 + 8 * i, 41 + 8 * i) as u64,
                ),
            decreases count - i,
        {
            seqs.push(get_u64(payload, 33 + 8 * i));
            i = i + 1;
            assert(seqs@ =~= Seq::new(
                i as nat,
                |i: int| field(payload@, 33 + 8 * i, 41 + 8 * i) as u64,
            ));
        }
        d.seqs = seqs;
    } else {
        return None;
    }
    Some(d)
}

/// Copy `data[a..b]`.
pub fn sub_vec(data: &[u8], a: usize, b: usize) -> (r: Vec<u8>)
    requires
        a <= b <= data@.len(),
    ensures
        r@ == data@.subrange(a as int, b as int),
{
    let mut out: Vec<u8> = Vec::with_capacity(b - a);
    let mut i: usize = a;
    while i < b
        invariant
            a <= i <= b <= data@.len(),
            out@ == data@.subrange(a as int, i as int),
        decreases b - i,
    {
        out.push(data[i]);
        i = i + 1;
        assert(out@ =~= data@.subrange(a as int, i as int));
    }
    out
}

// ── laws ───────────────────────────────────────────────────────────────────
/// Decoding gives back what `encode_seq_op` wrote.
pub proof fn seq_op_round_trip(op: u8, slot_id: u32, ts_ms: u64, seq: u64)
    requires
        is_seq_op(op),
    ensures
        seq_payload(op, slot_id, ts_ms, seq).len() == 21,
        record_of(seq_payload(op, slot_id, ts_ms, seq)) == Some(
            LogRecord {
                op,
                slot_id,
                ts_ms,
                seq,
                stream: Seq::empty(),
                consumer: Seq::empty(),
                seqs: Seq::empty(),
            },
        ),
{
    let p = seq_payload(op, slot_id, ts_ms, seq);
    pow256_values();
    le_round_trip(slot_id as nat, 4);
    le_round_trip(ts_ms as nat, 8);
    le_round_trip(seq as nat, 8);
    assert(p.subrange(1, 5) =~= le_bytes(slot_id as nat, 4));
    assert(p.subrange(5, 13) =~= le_bytes(ts_ms as nat, 8));
    assert(p.subrange(13, 21) =~= le_bytes(seq as nat, 8));
}

/// Decoding gives back what `encode_tombstone` wrote.
pub proof fn tombstone_round_trip(slot_id: u32, ts_ms: u64)
    ensures
        tombstone_payload(slot_id, ts_ms).len() == 13,
        record_of(tombstone_payload(slot_id, ts_ms)) == Some(
            LogRecord {
                op: OP_TOMBSTONE,
                slot_id,
                ts_ms,
                seq: 0,
                stream: Seq::empty(),
                consumer: Seq::empty(),
                seqs: Seq::empty(),
            },
        ),
{
    let p = tombstone_payload(slot_id, ts_ms);
    pow256_values();
    le_round_trip(slot_id as nat, 4);
    le_round_trip(ts_ms as nat, 8);
    assert(p.subrange(1, 5) =~= le_bytes(slot_id as nat, 4));
    assert(p.subrange(5, 13) =~= le_bytes(ts_ms as nat, 8));
}

/// Decoding gives back what `encode_register` wrote, for names whose length
/// fits the 16-bit length fields.
pub proof fn register_round_trip(slot_id: u32, ts_ms: u64, stream: Seq<u8>, consumer: Seq<u8>)
    requires
        stream.len() <= 65535,
        consumer.len() <= 65535,
    ensures
        register_payload(slot_id, ts_ms, stream, consumer).len() == 17 + stream.len()
            + consumer.len(),
        record_of(register_payload(slot_id, ts_ms, stream, consumer)) == Some(
            LogRecord {
                op: OP_REGISTER,
                slot_id,
                ts_ms,
                seq: 0,
                stream,
                consumer,
                seqs: Seq::empty(),
            },
        ),
{
    let p = register_payload(slot_id, ts_ms, stream, consumer);
    pow256_values();
    le_round_trip(slot_id as nat, 4);
    le_round_trip(ts_ms as nat, 8);
    le_round_trip(stream.len(), 2);
    le_round_trip(consumer.len(), 2);
    assert(p.subrange(1, 5) =~= le_bytes(slot_id as nat, 4));
    assert(p.subrange(5, 13) =~= le_bytes(ts_ms as nat, 8));
    assert(p.subrange(13, 15) =~= le_bytes(stream.len(), 2));
    assert(p.subrange(15, 17) =~= le_bytes(consumer.len(), 2));
    assert(p.subrange(17, 17 + stream.len() as int) =~= stream);
    assert(p.subrange(
        17 + stream.len() as int,
        17 + stream.len() as int + consumer.len() as int,
    ) =~= consumer);
}

/// Each sequence number stands in its own eight bytes.
pub proof fn seqs_bytes_at(seqs: Seq<u64>, i: int)
    requires
        0 <= i < seqs.len(),
    ensures
        seqs_bytes(seqs).len() == 8 * seqs.len(),
        seqs_bytes(seqs).subrange(8 * i, 8 * i + 8) == le_bytes(seqs[i] as nat, 8),
    decreases seqs.len(),
{
    seqs_bytes_len(seqs);
    seqs_bytes_len(seqs.drop_last());
    if i < seqs.len() - 1 {
        seqs_bytes_at(seqs.drop_last(), i);
        assert(seqs_bytes(seqs).subrange(8 * i, 8 * i + 8) =~= seqs_bytes(
            seqs.drop_last(),
        ).subrange(8 * i, 8 * i + 8));
    } else {
        assert(seqs_bytes(seqs).subrange(8 * i, 8 * i + 8) =~= le_bytes(seqs[i] as nat, 8));
    }
}

/// Decoding gives back the sequence numbers that `encode_snapshot` wrote, for
/// a count that fits the 32-bit count field.
pub proof fn snapshot_round_trip(
    slot_id: u32,
    ts_ms: u64,
    min_seq: u64,
    max_seq: u64,
    seqs: Seq<u64>,
)
    requires
        seqs.len() <= u32::MAX,
    ensures
        snapshot_payload(slot_id, ts_ms, min_seq, max_seq, seqs).len() == 33 + 8 * seqs.len(),
        record_of(snapshot_payload(slot_id, ts_ms, min_seq, max_seq, seqs)) == Some(
            LogRecord {
                op: OP_SNAPSHOT,
                slot_id,
                ts_ms,
                seq: 0,
                stream: Seq::empty(),
                consumer: Seq::empty(),
                seqs,
            },
        ),
{
    let p = snapshot_payload(slot_id, ts_ms, min_seq, max_seq, seqs);
    pow256_values();
    seqs_bytes_len(seqs);
    le_round_trip(slot_id as nat, 4);
    le_round_trip(ts_ms as nat, 8);
    le_round_trip(seqs.len(), 4);
    assert(p.subrange(1, 5) =~= le_bytes(slot_id as nat, 4));
    assert(p.subrange(5, 13) =~= le_bytes(ts_ms as nat, 8));
    assert(p.subrange(29, 33) =~= le_bytes(seqs.len(), 4));
    let read = Seq::new(seqs.len(), |i: int| field(p, 33 + 8 * i, 41 + 8 * i) as u64);
    assert forall|i: int| 0 <= i < seqs.len() implies read[i] == seqs[i] by {
        seqs_bytes_at(seqs, i);
        assert(p.subrange(33 + 8 * i, 41 + 8 * i) =~= seqs_bytes(seqs).subrange(8 * i, 8 * i + 8));
        le_round_trip(seqs[i] as nat, 8);
    }
    assert(read =~= seqs);
}

// ── laws ───────────────────────────────────────────────────────────────────
/// One round of the division.
spec fn crc_round(x: u32) -> u32 {
    if x & 1 != 0 {
        (x >> 1) ^ 0x82F6_3B78
    } else {
        x >> 1
    }
}

proof fn round_is_injective(x: u32, y: u32)
    requires
        crc_round(x) == crc_round(y),
    ensures
        x == y,
{
    assert((if x & 1 != 0 {
        (x >> 1) ^ 0x82F6_3B78u32
    } else {
        x >> 1
    }) == (if y & 1 != 0 {
        (y >> 1) ^ 0x82F6_3B78u32
    } else {
        y >> 1
    }) ==> x == y) by (bit_vector);
}

proof fn rounds_are_injective(x: u32, y: u32, n: nat)
    requires
        crc_rounds(x, n) == crc_rounds(y, n),
    ensures
        x == y,
    decreases n,
{
    if n > 0 {
        rounds_are_injective(crc_round(x), crc_round(y), (n - 1) as nat);
        round_is_injective(x, y);
    }
}

/// A round is linear where the lowest bit of one operand is clear.
proof fn round_splits(h: u32, x: u32)
    requires
        h & 1 == 0,
    ensures
        crc_round(h ^ x) == (h >> 1) ^ crc_round(x),
{
    assert(h & 1 == 0 ==> (if (h ^ x) & 1 != 0 {
        ((h ^ x) >> 1) ^ 0x82F6_3B78u32
    } else {
        (h ^ x) >> 1
    }) == (h >> 1) ^ (if x & 1 != 0 {
        (x >> 1) ^ 0x82F6_3B78u32
    } else {
        x >> 1
    })) by (bit_vector);
}

proof fn rounds_split(h: u32, x: u32)
    requires
        h & 0xFF == 0,
    ensures
        crc_rounds(h ^ x, 8) == (h >> 8) ^ crc_rounds(x, 8),
{
    reveal_with_fuel(crc_rounds, 9);
    let x1 = crc_round(x);
    let x2 = crc_round(x1);
    let x3 = crc_round(x2);
    let x4 = crc_round(x3);
    let x5 = crc_round(x4);
    let x6 = crc_round(x5);
    let x7 = crc_round(x6);
    let x8 = crc_round(x7);
    assert(h & 0xFF == 0 ==> h & 1 == 0 && (h >> 1) & 1 == 0 && (h >> 2) & 1 == 0 && (h >> 3) & 1
        == 0 && (h >> 4) & 1 == 0 && (h >> 5) & 1 == 0 && (h >> 6) & 1 == 0 && (h >> 7) & 1 == 0)
        by (bit_vector);
    assert((h >> 1) >> 1 == h >> 2 && (h >> 2) >> 1 == h >> 3 && (h >> 3) >> 1 == h >> 4 && (h >> 4)
        >> 1 == h >> 5 && (h >> 5) >> 1 == h >> 6 && (h >> 6) >> 1 == h >> 7 && (h >> 7) >> 1 == h
        >> 8) by (bit_vector);
    round_splits(h, x);
    round_splits(h >> 1, x1);
    round_splits(h >> 2, x2);
    round_splits(h >> 3, x3);
    round_splits(h >> 4, x4);
    round_splits(h >> 5, x5);
    round_splits(h >> 6, x6);
    round_splits(h >> 7, x7);
}

/// Taking in one byte is eight rounds on the whole remainder.
proof fn byte_is_rounds(c: u32, b: u8)
    ensures
        (c >> 8) ^ crc_rounds((c ^ (b as u32)) & 0xFF, 8) == crc_rounds(c ^ (b as u32), 8),
{
    let w = c ^ (b as u32);
    let h = w & 0xFFFF_FF00;
    let l = w & 0xFF;
    assert((w & 0xFFFF_FF00) & 0xFF == 0 && (w & 0xFFFF_FF00) ^ (w & 0xFF) == w && (w & 0xFFFF_FF00)
        >> 8 == w >> 8) by (bit_vector);
    assert((c ^ (b as u32)) >> 8 == c >> 8) by (bit_vector);
    rounds_split(h, l);
}

/// Two remainders or two bytes that differ stay apart.
proof fn byte_keeps_apart(c: u32, x: u8, d: u32, y: u8)
    requires
        (c >> 8) ^ crc_rounds((c ^ (x as u32)) & 0xFF, 8) == (d >> 8) ^ crc_rounds(
            (d ^ (y as u32)) & 0xFF,
            8,
        ),
    ensures
        c == d ==> x == y,
        x == y ==> c == d,
{
    byte_is_rounds(c, x);
    byte_is_rounds(d, y);
    rounds_are_injective(c ^ (x as u32), d ^ (y as u32), 8);
    assert(c == d && c ^ (x as u32) == d ^ (y as u32) ==> x == y) by (bit_vector);
    assert(x == y && c ^ (x as u32) == d ^ (y as u32) ==> c == d) by (bit_vector);
}

proof fn changed_byte_changes_remainder(data: Seq<u8>, i: int, b: u8)
    requires
        0 <= i < data.len(),
        b != data[i],
    ensures
        crc_remainder(data.update(i, b)) != crc_remainder(data),
    decreases data.len(),
{
    let other = data.update(i, b);
    let t = data.drop_last();
    let n = data.len() - 1;
    let c = crc_remainder(t);
    let d = crc_remainder(other.drop_last());
    if i == n {
        assert(other.drop_last() =~= t);
    } else {
        assert(other.drop_last() =~= t.update(i, b));
        changed_byte_changes_remainder(t, i, b);
    }
    if crc_remainder(other) == crc_remainder(data) {
        byte_keeps_apart(c, data.last(), d, other.last());
    }
}

/// The checksum notices every change of one byte.
pub proof fn changed_byte_changes_checksum(data: Seq<u8>, i: int, b: u8)
    requires
        0 <= i < data.len(),
        b != data[i],
    ensures
        crc32c_of(data.update(i, b)) != crc32c_of(data),
{
    changed_byte_changes_remainder(data, i, b);
    let x = crc_remainder(data.update(i, b));
    let y = crc_remainder(data);
    assert(x != y ==> x ^ 0xFFFF_FFFFu32 != y ^ 0xFFFF_FFFFu32) by (bit_vector);
}

/// Where things stand in the frame of a record, a confirmation, an expiry or a
/// cursor: the length of the payload, the op, the slot, the time, the sequence
/// number, the checksum.
pub proof fn frame_layout(op: u8, slot_id: u32, ts_ms: u64, seq: u64)
    ensures
        ({
            let f = frame(seq_payload(op, slot_id, ts_ms, seq));
            &&& f.len() == 29
            &&& le_value(f.subrange(0, 4)) == 21
            &&& f[4] == op
            &&& le_value(f.subrange(5, 9)) == slot_id
            &&& le_value(f.subrange(9, 17)) == ts_ms
            &&& le_value(f.subrange(17, 25)) == seq
            &&& le_value(f.subrange(25, 29)) == crc32c_of(f.subrange(4, 25))
        }),
        OP_REGISTER == 1 && OP_RECORD == 2 && OP_CONFIRM == 3 && OP_EXPIRE == 4 && OP_TOMBSTONE == 5
            && OP_SNAPSHOT == 6 && OP_CONFIRM_UP_TO == 7,
{
    let p = seq_payload(op, slot_id, ts_ms, seq);
    let f = frame(p);
    pow256_values();
    le_round_trip(21, 4);
    le_round_trip(slot_id as nat, 4);
    le_round_trip(ts_ms as nat, 8);
    le_round_trip(seq as nat, 8);
    le_round_trip(crc32c_of(p) as nat, 4);
    assert(f.subrange(0, 4) =~= le_bytes(21, 4));
    assert(f.subrange(4, 25) =~= p);
    assert(f.subrange(5, 9) =~= le_bytes(slot_id as nat, 4));
    assert(f.subrange(9, 17) =~= le_bytes(ts_ms as nat, 8));
    assert(f.subrange(17, 25) =~= le_bytes(seq as nat, 8));
    assert(f.subrange(25, 29) =~= le_bytes(crc32c_of(p) as nat, 4));
}

/// Nothing is read but what a writer writes: a payload that is read as a
/// record, confirmation, expiry, cursor, tombstone or registration is the one
/// that is written for it, and the only other payloads that are read are
/// snapshots of their full length.
pub proof fn only_written_records_are_read(p: Seq<u8>)
    requires
        record_of(p) is Some,
    ensures
        ({
            let r = record_of(p)->0;
            &&& 1 <= r.op <= 7
            &&& r.op == 2 || r.op == 3 || r.op == 4 || r.op == 7 ==> p == seq_payload(
                r.op,
                r.slot_id,
                r.ts_ms,
                r.seq,
            )
            &&& r.op == 5 ==> p == tombstone_payload(r.slot_id, r.ts_ms)
            &&& r.op == 1 ==> p == register_payload(r.slot_id, r.ts_ms, r.stream, r.consumer)
            &&& r.op == 6 ==> p[0] == 6 && p.len() == 33 + 8 * r.seqs.len() && le_value(
                p.subrange(1, 5),
            ) == r.slot_id && le_value(p.subrange(5, 13)) == r.ts_ms && forall|i: int|
                0 <= i < r.seqs.len() ==> le_value(p.subrange(33 + 8 * i, 41 + 8 * i))
                    == #[trigger] r.seqs[i]
        }),
{
    let r = record_of(p)->0;
    pow256_values();
    if p.len() >= 13 {
        le_value_round_trip(p.subrange(1, 5));
        le_value_round_trip(p.subrange(5, 13));
    }
    if is_seq_op(p[0]) {
        le_value_round_trip(p.subrange(13, 21));
        assert(p =~= seq_payload(r.op, r.slot_id, r.ts_ms, r.seq));
    } else if p[0] == OP_TOMBSTONE {
        assert(p =~= tombstone_payload(r.slot_id, r.ts_ms));
    } else if p[0] == OP_REGISTER {
        le_value_round_trip(p.subrange(13, 15));
        le_value_round_trip(p.subrange(15, 17));
        assert(p =~= register_payload(r.slot_id, r.ts_ms, r.stream, r.consumer));
    } else {
        assert forall|i: int| 0 <= i < r.seqs.len() implies le_value(
            p.subrange(33 + 8 * i, 41 + 8 * i),
        ) == #[trigger] r.seqs[i] by {
            le_value_round_trip(p.subrange(33 + 8 * i, 41 + 8 * i));
        }
    }
}

} // verus!
