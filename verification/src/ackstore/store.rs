//! The delivered-set store's interface.
//!
//! On each delivery the client asks "has the handler already run for this
//! message?". A message is identified by `(stream, consumer, seq)`, by name:
//! the broker's numeric consumer id changes when a consumer is recreated, the
//! names do not.
//!
//! Names are resolved once per subscription to a slot; the delivery path then
//! works on the slot.

use crate::ackstore::live::{
    above, bounds, is_largest, is_smallest, oldest, oldest_in, oldest_is_minimum,
};
use crate::ackstore::slot::{SlotModel, SlotState};
use crate::ackstore::table::{grown, live_count, SlotTable};
use crate::text::{
    byte_len, decimal, decimal_digits, decimal_injective, encode_concat, push_decimal,
};
use vstd::prelude::*;
use vstd::utf8::encode_utf8;

verus! {

broadcast use vstd::laws_cmp::group_laws_cmp;

/// Longest accepted stream or consumer name, in bytes.
pub const MAX_NAME_LEN: usize = 65535;

/// Errors surfaced by store operations.
#[derive(Debug, Clone)]
pub enum StoreError {
    Closed,
    SlotOverflow,
    NameTooLong,
    UnknownSlot,
    Io(String),
    Corrupt,
    /// No directory is configured and the platform offers none.
    NoDefaultDir(String),
    BadDir { path: String, reason: String },
    /// Another process holds the store.
    Locked(String),
}

impl StoreError {
    /// One-line description.
    pub fn message(&self) -> (r: String)
        ensures
            r@ == self.text(),
    {
        match self {
            StoreError::Closed => "ackstore: closed".to_owned(),
            StoreError::SlotOverflow => "ackstore: slot id overflow".to_owned(),
            StoreError::NameTooLong => "ackstore: stream/consumer name too long".to_owned(),
            StoreError::UnknownSlot => "ackstore: unknown slot".to_owned(),
            StoreError::Io(e) => {
                let mut s = "ackstore: io: ".to_owned();
                s.push_str(e.as_str());
                s
            },
            StoreError::Corrupt => "ackstore: corrupt record".to_owned(),
            StoreError::NoDefaultDir(e) => {
                let mut s = "ackstore: no default directory: ".to_owned();
                s.push_str(e.as_str());
                s
            },
            StoreError::BadDir { path, reason } => {
                let mut s = "ackstore: bad directory ".to_owned();
                s.push_str(path.as_str());
                s.push_str(": ");
                s.push_str(reason.as_str());
                s
            },
            StoreError::Locked(path) => {
                let mut s = "ackstore: already open by another process: ".to_owned();
                s.push_str(path.as_str());
                s
            },
        }
    }

    /// What `message` says.
    pub open spec fn text(&self) -> Seq<char> {
        match self {
            StoreError::Closed => "ackstore: closed"@,
            StoreError::SlotOverflow => "ackstore: slot id overflow"@,
            StoreError::NameTooLong => "ackstore: stream/consumer name too long"@,
            StoreError::UnknownSlot => "ackstore: unknown slot"@,
            StoreError::Io(e) => "ackstore: io: "@ + e@,
            StoreError::Corrupt => "ackstore: corrupt record"@,
            StoreError::NoDefaultDir(e) => "ackstore: no default directory: "@ + e@,
            StoreError::BadDir { path, reason } => "ackstore: bad directory "@ + path@ + ": "@
                + reason@,
            StoreError::Locked(path) => "ackstore: already open by another process: "@ + path@,
        }
    }
}

/// Introspection view of one slot.
#[derive(Debug, Clone)]
pub struct SlotInfo {
    pub slot_id: u32,
    pub stream: String,
    pub consumer: String,
    /// Live sequence numbers (recorded, not yet confirmed or expired).
    pub live: usize,
    /// Smallest live sequence number (0 if empty).
    pub min_seq: u64,
    /// Largest live sequence number (0 if empty).
    pub max_seq: u64,
    /// Time (unix ms) of the oldest live entry (0 if empty).
    pub oldest_ts_ms: u64,
    /// Time (unix ms) at which this process came to know the slot.
    pub registered_at: i64,
}

/// Point-in-time snapshot of store counters.
#[derive(Debug, Clone, Copy)]
pub struct Metrics {
    pub slots: usize,
    pub live_entries: u64,
    pub recorded: u64,
    pub confirmed: u64,
    pub expired: u64,
    pub registered: u64,
    pub tombstoned: u64,
    pub sync_errors: u64,
    pub file_size: i64,
    pub last_sync_ms: i64,
    pub last_snapshot_ms: i64,
}

impl Default for Metrics {
    fn default() -> (r: Metrics)
        ensures
            r == (Metrics {
                slots: 0,
                live_entries: 0,
                recorded: 0,
                confirmed: 0,
                expired: 0,
                registered: 0,
                tombstoned: 0,
                sync_errors: 0,
                file_size: 0,
                last_sync_ms: 0,
                last_snapshot_ms: 0,
            }),
    {
        Metrics {
            slots: 0,
            live_entries: 0,
            recorded: 0,
            confirmed: 0,
            expired: 0,
            registered: 0,
            tombstoned: 0,
            sync_errors: 0,
            file_size: 0,
            last_sync_ms: 0,
            last_snapshot_ms: 0,
        }
    }
}

/// Whether a result is the refusal by a closed store.
pub open spec fn is_closed_err<T>(r: Result<T, StoreError>) -> bool {
    r matches Err(e) && e is Closed
}

/// The name under which a slot is found: the length of the stream's name in
/// bytes, a colon, and the two names.
pub open spec fn key_of(stream: Seq<char>, consumer: Seq<char>) -> Seq<char> {
    decimal(encode_utf8(stream).len()) + ":"@ + stream + consumer
}

/// The name under which a slot is found.
pub fn slot_key(stream: &str, consumer: &str) -> (r: String)
    ensures
        r@ == key_of(stream@, consumer@),
{
    let mut s = "".to_owned();
    push_decimal(&mut s, byte_len(stream) as u64);
    s.push_str(":");
    s.push_str(stream);
    s.push_str(consumer);
    proof {
        reveal_strlit("");
        assert(s@ =~= key_of(stream@, consumer@));
    }
    s
}

/// A text that continues another one takes more bytes.
proof fn longer_text(a: Seq<char>, b: Seq<char>)
    requires
        a.len() < b.len(),
        b.take(a.len() as int) == a,
    ensures
        encode_utf8(a).len() < encode_utf8(b).len(),
{
    let x = b.skip(a.len() as int);
    assert(b =~= a + x);
    encode_concat(a, x);
    assert(encode_utf8(x).len() > 0) by {
        assert(x.len() > 0);
    }
}

/// Different pairs of names never share a slot.
pub proof fn key_names_the_pair(s1: Seq<char>, c1: Seq<char>, s2: Seq<char>, c2: Seq<char>)
    ensures
        key_of(s1, c1) == key_of(s2, c2) <==> s1 == s2 && c1 == c2,
{
    reveal_strlit(":");
    let a = key_of(s1, c1);
    let b = key_of(s2, c2);
    if a == b {
        let n1 = encode_utf8(s1).len();
        let n2 = encode_utf8(s2).len();
        let d1 = decimal(n1);
        let d2 = decimal(n2);
        assert(a[d1.len() as int] == ':');
        assert(b[d2.len() as int] == ':');
        if d1.len() < d2.len() {
            decimal_digits(n2, d1.len() as int);
            assert(b[d1.len() as int] == d2[d1.len() as int]);
        } else if d2.len() < d1.len() {
            decimal_digits(n1, d2.len() as int);
            assert(a[d2.len() as int] == d1[d2.len() as int]);
        }
        let k = d1.len() as int;
        assert(a.take(k) =~= d1);
        assert(b.take(k) =~= d2);
        decimal_injective(n1, n2);
        assert(a.skip(k + 1) =~= s1 + c1);
        assert(b.skip(k + 1) =~= s2 + c2);
        let j1 = s1 + c1;
        let j2 = s2 + c2;
        assert(j1.take(s1.len() as int) =~= s1);
        assert(j2.take(s2.len() as int) =~= s2);
        if s1.len() < s2.len() {
            assert(s2.take(s1.len() as int) =~= s1);
            longer_text(s1, s2);
        } else if s2.len() < s1.len() {
            assert(s1.take(s2.len() as int) =~= s2);
            longer_text(s2, s1);
        }
        assert(j1.skip(s1.len() as int) =~= c1);
        assert(j2.skip(s2.len() as int) =~= c2);
    }
}

/// A resolved `(stream, consumer)` pair.
pub struct Slot {
    pub slot_id: u32,
    pub stream: String,
    pub consumer: String,
    pub key: String,
    pub registered_at: i64,
    pub state: SlotState,
}

impl Slot {
    pub open spec fn wf(&self) -> bool {
        &&& self.key@ == key_of(self.stream@, self.consumer@)
        &&& self.state@.wf()
    }

    /// The same slot in another state.
    pub open spec fn same_as(&self, other: &Slot) -> bool {
        &&& self.slot_id == other.slot_id
        &&& self.stream == other.stream
        &&& self.consumer == other.consumer
        &&& self.key == other.key
        &&& self.registered_at == other.registered_at
    }

    pub fn new(slot_id: u32, stream: &str, consumer: &str, registered_at: i64) -> (r: Slot)
        ensures
            r.wf(),
            r.slot_id == slot_id,
            r.stream@ == stream@,
            r.consumer@ == consumer@,
            r.registered_at == registered_at,
            r.state@ == SlotModel::empty(),
    {
        Slot {
            slot_id,
            stream: stream.to_owned(),
            consumer: consumer.to_owned(),
            key: slot_key(stream, consumer),
            registered_at,
            state: SlotState::new(),
        }
    }

    /// What is left of a slot once it is deleted.
    pub fn gone(slot_id: u32) -> (r: Slot)
        ensures
            r.wf(),
            r.slot_id == slot_id,
            r.stream@ == ""@,
            r.consumer@ == ""@,
            r.registered_at == 0,
            r.state@ == SlotModel::empty().deleted(),
    {
        let mut s = Slot::new(slot_id, "", "", 0);
        s.state.tombed = true;
        s
    }

    /// This slot's metadata.
    pub fn info(&self) -> (r: SlotInfo)
        ensures
            describes(r, *self),
    {
        let (min, max) = bounds(&self.state.set);
        SlotInfo {
            slot_id: self.slot_id,
            stream: self.stream.clone(),
            consumer: self.consumer.clone(),
            live: self.state.set.len(),
            min_seq: min,
            max_seq: max,
            oldest_ts_ms: oldest(&self.state.set) as u64,
            registered_at: self.registered_at,
        }
    }
}

/// `info` is the metadata of `slot`.
pub open spec fn describes(info: SlotInfo, slot: Slot) -> bool {
    &&& info.slot_id == slot.slot_id
    &&& info.stream@ == slot.stream@
    &&& info.consumer@ == slot.consumer@
    &&& info.live == slot.state@.live.dom().len()
    &&& is_smallest(slot.state@.live.dom(), info.min_seq)
    &&& is_largest(slot.state@.live.dom(), info.max_seq)
    &&& info.oldest_ts_ms == oldest_in(slot.state@.live) as u64
    &&& info.registered_at == slot.registered_at
}

/// What a store does with a resolved slot. Two ways to use it:
///
/// * record at ack: on delivery run the handler unless `seen`; on ack
///   `record`; on the broker's cursor `confirm_up_to`.
/// * test-and-set at delivery: run the handler if `check_record` says so.
///
/// Once closed, all that would change a slot fails, and changes nothing.
pub trait SlotRef {
    /// Live entries per slot before the oldest recordings are pushed out.
    spec fn cap(&self) -> usize;

    spec fn closed(&self) -> bool;

    /// Outside the recorded range, so certainly not seen.
    fn fresh(&self, slot: &Slot, seq: u64) -> (r: bool)
        ensures
            r == slot.state@.fresh(seq),
    ;

    /// Whether `seq` has been recorded. The delivery-path check.
    fn seen(&self, slot: &Slot, seq: u64) -> (r: bool)
        ensures
            r == slot.state@.seen(seq),
    ;

    /// Test and set: `true` and recorded when new, `false` for a duplicate. A
    /// deleted slot reports everything as new and records nothing.
    fn check_record(&mut self, slot: &mut Slot, seq: u64, now: i64) -> (r: Result<
        bool,
        StoreError,
    >)
        requires
            old(slot).wf(),
        ensures
            final(slot).wf(),
            final(slot).same_as(old(slot)),
            final(self).cap() == old(self).cap(),
            final(self).closed() == old(self).closed(),
            if old(self).closed() {
                is_closed_err(r) && *final(slot) == *old(slot)
            } else if old(slot).state@.tombed || old(slot).state@.live.contains_key(seq) {
                r == Ok::<bool, StoreError>(old(slot).state@.tombed) && *final(slot) == *old(slot)
            } else {
                &&& r == Ok::<bool, StoreError>(true)
                &&& final(slot).state@ == old(slot).state@.recorded(seq, now, old(self).cap())
            },
    ;

    /// Mark `seq` as processed. Idempotent.
    fn record(&mut self, slot: &mut Slot, seq: u64, now: i64) -> (r: Result<(), StoreError>)
        requires
            old(slot).wf(),
        ensures
            final(slot).wf(),
            final(slot).same_as(old(slot)),
            final(self).cap() == old(self).cap(),
            final(self).closed() == old(self).closed(),
            if old(self).closed() {
                is_closed_err(r) && *final(slot) == *old(slot)
            } else if old(slot).state@.tombed || old(slot).state@.live.contains_key(seq) {
                r is Ok && *final(slot) == *old(slot)
            } else {
                &&& r is Ok
                &&& final(slot).state@ == old(slot).state@.recorded(seq, now, old(self).cap())
            },
    ;

    /// The broker has the ack of `seq`: drop it.
    fn confirm(&mut self, slot: &mut Slot, seq: u64, now: i64) -> (r: Result<(), StoreError>)
        requires
            old(slot).wf(),
        ensures
            final(slot).wf(),
            final(slot).same_as(old(slot)),
            final(self).cap() == old(self).cap(),
            final(self).closed() == old(self).closed(),
            if old(self).closed() {
                is_closed_err(r) && *final(slot) == *old(slot)
            } else {
                r is Ok && final(slot).state@ == old(slot).state@.confirmed(seq)
            },
    ;

    /// Drop everything at or below the broker's cursor; returns how many
    /// entries that were.
    fn confirm_up_to(&mut self, slot: &mut Slot, cursor: u64, now: i64) -> (r: Result<
        usize,
        StoreError,
    >)
        requires
            old(slot).wf(),
        ensures
            final(slot).wf(),
            final(slot).same_as(old(slot)),
            final(self).cap() == old(self).cap(),
            final(self).closed() == old(self).closed(),
            if old(self).closed() {
                is_closed_err(r) && *final(slot) == *old(slot)
            } else {
                &&& final(slot).state@ == old(slot).state@.dropped_to(cursor)
                &&& final(slot).state@.live == above(old(slot).state@.live, cursor)
                &&& r matches Ok(n) && n == old(slot).state@.live.dom().len()
                    - final(slot).state@.live.dom().len()
            },
    ;

    /// This slot's metadata.
    fn info(&self, slot: &Slot) -> (r: SlotInfo)
        ensures
            describes(r, *slot),
    ;
}

/// What `slot` returns and does to the table.
///
/// * A closed store: `Closed`, nothing changes.
/// * A name over `MAX_NAME_LEN` bytes: `NameTooLong`, nothing changes.
/// * A known pair: its id, nothing changes.
/// * No id left: `SlotOverflow`, nothing changes.
/// * Otherwise an empty slot joins the table under the next id, which is
///   returned.
pub open spec fn slot_resolved(
    closed: bool,
    t0: SlotTable,
    stream: Seq<char>,
    consumer: Seq<char>,
    now: i64,
    t1: SlotTable,
    r: Result<u32, StoreError>,
) -> bool {
    if closed {
        is_closed_err(r) && t1 == t0
    } else if encode_utf8(stream).len() > MAX_NAME_LEN || encode_utf8(consumer).len()
        > MAX_NAME_LEN {
        r matches Err(e) && e is NameTooLong && t1 == t0
    } else if t0.has_key(key_of(stream, consumer)) {
        &&& r matches Ok(id) && exists|i: int| #[trigger]
            t0.key_at(key_of(stream, consumer), i) && t0.slots@[i].slot_id == id
        &&& t1 == t0
    } else if t0.next_id == u32::MAX {
        r matches Err(e) && e is SlotOverflow && t1 == t0
    } else {
        &&& grown(t0, stream, consumer, now, t1)
        &&& r == Ok::<u32, StoreError>(t0.next_id)
    }
}

/// What `delete_slot` returns and does to the table: a closed store refuses,
/// an unknown pair is `UnknownSlot` and changes nothing, a known one leaves.
pub open spec fn slot_deleted(
    closed: bool,
    t0: SlotTable,
    stream: Seq<char>,
    consumer: Seq<char>,
    t1: SlotTable,
    r: Result<(), StoreError>,
) -> bool {
    if closed {
        is_closed_err(r) && t1 == t0
    } else if t0.has_key(key_of(stream, consumer)) {
        &&& exists|i: int|
            #![trigger t0.key_at(key_of(stream, consumer), i)]
            t0.key_at(key_of(stream, consumer), i) && t1.slots@ == t0.slots@.remove(i)
        &&& t1.next_id == t0.next_id
        &&& r is Ok
    } else {
        r matches Err(e) && e is UnknownSlot && t1 == t0
    }
}

/// What is left to do after a sync.
#[derive(Debug, Clone, Copy, PartialEq, Eq, Structural)]
pub enum SyncNext {
    Done,
    /// The log has outgrown its limit: rewrite it.
    Compact,
}

/// The delivered-set store.
///
/// The caller does the file work and reports how it went: `io` is the outcome
/// of writing out and flushing what the store has buffered.
///
/// Once closed, every call that can fail does, but for a further `close`.
pub trait Store {
    spec fn table(&self) -> SlotTable;

    spec fn is_closed(&self) -> bool;

    /// Resolve a pair of names to a slot id, registering it on first use.
    fn slot(&mut self, stream: &str, consumer: &str, now: i64) -> (r: Result<u32, StoreError>)
        requires
            old(self).table().wf(),
        ensures
            final(self).table().wf(),
            final(self).is_closed() == old(self).is_closed(),
            slot_resolved(
                old(self).is_closed(),
                old(self).table(),
                stream@,
                consumer@,
                now,
                final(self).table(),
                r,
            ),
    ;

    /// Make what was recorded durable.
    fn sync(&mut self, io: Result<(), String>, now: i64) -> (r: Result<SyncNext, StoreError>)
        requires
            old(self).table().wf(),
        ensures
            final(self).table() == old(self).table(),
            final(self).is_closed() == old(self).is_closed(),
            old(self).is_closed() ==> is_closed_err(r),
    ;

    /// Rebuild from persistent storage. Construction has already done so.
    fn restore(&self) -> (r: Result<(), StoreError>)
        ensures
            self.is_closed() ==> is_closed_err(r),
            !self.is_closed() ==> r is Ok,
    ;

    /// Flush and release.
    fn close(&mut self, io: Result<(), String>) -> (r: Result<(), StoreError>)
        ensures
            final(self).table() == old(self).table(),
            final(self).is_closed() == (old(self).is_closed() || r is Ok),
    ;

    /// Metadata of every known slot, in order of id.
    fn list_slots(&self) -> (r: Vec<SlotInfo>)
        ensures
            r@.len() == self.table().slots@.len(),
            forall|i: int|
                0 <= i < r@.len() ==> describes(#[trigger] r@[i], self.table().slots@[i]),
    ;

    /// Metadata of one slot.
    fn slot_info(&self, stream: &str, consumer: &str) -> (r: Option<SlotInfo>)
        ensures
            match r {
                Some(info) => exists|i: int| #[trigger]
                    self.table().key_at(key_of(stream@, consumer@), i) && describes(
                        info,
                        self.table().slots@[i],
                    ),
                None => !self.table().has_key(key_of(stream@, consumer@)),
            },
    ;

    /// Forget a slot and everything in it.
    fn delete_slot(&mut self, stream: &str, consumer: &str, now: i64) -> (r: Result<
        (),
        StoreError,
    >)
        requires
            old(self).table().wf(),
        ensures
            final(self).table().wf(),
            final(self).is_closed() == old(self).is_closed(),
            slot_deleted(
                old(self).is_closed(),
                old(self).table(),
                stream@,
                consumer@,
                final(self).table(),
                r,
            ),
    ;

    /// Counters and gauges.
    fn metrics(&self) -> (r: Metrics)
        ensures
            r.slots == self.table().slots@.len(),
            r.live_entries as nat == live_count(self.table().slots@) % 0x1_0000_0000_0000_0000,
    ;
}

// ── laws ───────────────────────────────────────────────────────────────────
/// A pair of names leads to the same slot every time, and different pairs lead
/// to different slots.
pub proof fn slots_follow_names(
    t0: SlotTable,
    s1: Seq<char>,
    c1: Seq<char>,
    n1: i64,
    t1: SlotTable,
    a: u32,
    s2: Seq<char>,
    c2: Seq<char>,
    n2: i64,
    t2: SlotTable,
    b: u32,
)
    requires
        t0.wf(),
        t1.wf(),
        slot_resolved(false, t0, s1, c1, n1, t1, Ok(a)),
        slot_resolved(false, t1, s2, c2, n2, t2, Ok(b)),
    ensures
        a == b <==> s1 == s2 && c1 == c2,
        s1 == s2 && c1 == c2 ==> t2 == t1,
{
    let k1 = key_of(s1, c1);
    let k2 = key_of(s2, c2);
    key_names_the_pair(s1, c1, s2, c2);
    let i = found_at(t0, s1, c1, n1, t1, a);
    if t1.has_key(k2) {
        let j = choose|j: int| #[trigger] t1.key_at(k2, j) && t1.slots@[j].slot_id == b;
        if i < j {
            assert(t1.slots@[i].key@ != t1.slots@[j].key@);
            assert(t1.slots@[i].slot_id < t1.slots@[j].slot_id);
        } else if j < i {
            assert(t1.slots@[j].key@ != t1.slots@[i].key@);
            assert(t1.slots@[j].slot_id < t1.slots@[i].slot_id);
        }
    } else {
        if k1 == k2 {
            assert(t1.key_at(k2, i));
        }
        assert(t1.slots@[i].slot_id < t1.next_id);
    }
}

/// Where a pair of names stands once it is resolved.
proof fn found_at(
    t0: SlotTable,
    stream: Seq<char>,
    consumer: Seq<char>,
    now: i64,
    t1: SlotTable,
    id: u32,
) -> (i: int)
    requires
        t0.wf(),
        t1.wf(),
        slot_resolved(false, t0, stream, consumer, now, t1, Ok(id)),
    ensures
        t1.key_at(key_of(stream, consumer), i),
        t1.slots@[i].slot_id == id,
        t1.slots@[i].stream@ == stream,
        t1.slots@[i].consumer@ == consumer,
{
    let k = key_of(stream, consumer);
    if t0.has_key(k) {
        let i = choose|i: int| #[trigger] t0.key_at(k, i) && t0.slots@[i].slot_id == id;
        assert(t0.slots@[i].wf());
        key_names_the_pair(t0.slots@[i].stream@, t0.slots@[i].consumer@, stream, consumer);
        i
    } else {
        let i = t0.slots@.len() as int;
        assert(t1.slots@[i].wf());
        i
    }
}

/// Resolving a pair of names gives a slot under these names. What was known
/// before keeps its id and its state, and a slot that is new holds nothing.
pub proof fn resolving_keeps_the_others(
    t0: SlotTable,
    stream: Seq<char>,
    consumer: Seq<char>,
    now: i64,
    t1: SlotTable,
    id: u32,
    other: u32,
)
    requires
        t0.wf(),
        t1.wf(),
        slot_resolved(false, t0, stream, consumer, now, t1, Ok(id)),
    ensures
        exists|i: int| #[trigger]
            t1.id_at(id, i) && t1.slots@[i].stream@ == stream && t1.slots@[i].consumer@ == consumer,
        t0.has_id(other) ==> t1.has_id(other) && t1.model(other) == t0.model(other),
        !t0.has_id(id) ==> t1.model(id) == SlotModel::empty(),
{
    let i = found_at(t0, stream, consumer, now, t1, id);
    assert(t1.id_at(id, i));
    if t0.has_id(other) {
        let j = choose|j: int| t0.id_at(other, j);
        if !t0.has_key(key_of(stream, consumer)) {
            assert(t1.slots@.take(t0.slots@.len() as int)[j] == t1.slots@[j]);
        }
        assert(t1.slots@[j] == t0.slots@[j]);
        t0.model_at(j);
        t1.model_at(j);
    }
    if !t0.has_id(id) {
        if t0.has_key(key_of(stream, consumer)) {
            assert(t0.id_at(id, i));
        }
        t1.model_at(i);
    }
}

/// A store that is open resolves every pair of names of up to 65535 bytes each,
/// as long as it knows the pair or has an id left.
pub proof fn names_resolve(
    t0: SlotTable,
    stream: Seq<char>,
    consumer: Seq<char>,
    now: i64,
    t1: SlotTable,
    r: Result<u32, StoreError>,
)
    requires
        slot_resolved(false, t0, stream, consumer, now, t1, r),
        encode_utf8(stream).len() <= 65535,
        encode_utf8(consumer).len() <= 65535,
        t0.has_key(key_of(stream, consumer)) || t0.next_id < u32::MAX,
    ensures
        r is Ok,
{
}

/// A deleted slot is unknown, its id holds nothing, and every other slot is as
/// it was.
pub proof fn deleting_forgets_one_slot(
    t0: SlotTable,
    stream: Seq<char>,
    consumer: Seq<char>,
    t1: SlotTable,
    i: int,
    other: u32,
)
    requires
        t0.wf(),
        t1.wf(),
        t0.key_at(key_of(stream, consumer), i),
        slot_deleted(false, t0, stream, consumer, t1, Ok(())),
    ensures
        !t1.has_key(key_of(stream, consumer)),
        !t1.has_id(t0.slots@[i].slot_id),
        other != t0.slots@[i].slot_id ==> t1.has_id(other) == t0.has_id(other) && t1.model(other)
            == t0.model(other),
{
    let key = key_of(stream, consumer);
    assert(t0.has_key(key));
    let d = choose|d: int|
        #![trigger t0.key_at(key, d)]
        t0.key_at(key, d) && t1.slots@ == t0.slots@.remove(d);
    if d < i {
        assert(t0.slots@[d].key@ != t0.slots@[i].key@);
    } else if i < d {
        assert(t0.slots@[i].key@ != t0.slots@[d].key@);
    }
    if t1.has_key(key) {
        let j = choose|j: int| t1.key_at(key, j);
        let k = if j < i { j } else { j + 1 };
        assert(t1.slots@[j] == t0.slots@[k]);
        if k < i {
            assert(t0.slots@[k].key@ != t0.slots@[i].key@);
        } else {
            assert(t0.slots@[i].key@ != t0.slots@[k].key@);
        }
    }
    let id = t0.slots@[i].slot_id;
    if t1.has_id(id) {
        let j = choose|j: int| t1.id_at(id, j);
        let k = if j < i { j } else { j + 1 };
        assert(t1.slots@[j] == t0.slots@[k]);
        if k < i {
            assert(t0.slots@[k].slot_id < t0.slots@[i].slot_id);
        } else {
            assert(t0.slots@[i].slot_id < t0.slots@[k].slot_id);
        }
    }
    if other != id {
        if t0.has_id(other) {
            let k = choose|k: int| t0.id_at(other, k);
            let j = if k < i { k } else { k - 1 };
            assert(t1.slots@[j] == t0.slots@[k]);
            assert(t1.id_at(other, j));
            t0.model_at(k);
            t1.model_at(j);
        }
        if t1.has_id(other) {
            let j = choose|j: int| t1.id_at(other, j);
            let k = if j < i { j } else { j + 1 };
            assert(t1.slots@[j] == t0.slots@[k]);
            assert(t0.id_at(other, k));
        }
    }
}

/// What a slot's metadata says: its id and names, how many entries are live,
/// the least and the greatest of them and the time of the oldest, zero for
/// none.
pub proof fn info_tells_what_is_live(info: SlotInfo, slot: Slot, s: u64)
    requires
        describes(info, slot),
        slot.wf(),
    ensures
        info.slot_id == slot.slot_id && info.stream@ == slot.stream@ && info.consumer@
            == slot.consumer@ && info.registered_at == slot.registered_at,
        info.live == slot.state@.live.dom().len(),
        slot.state@.live.contains_key(s) ==> info.min_seq <= s <= info.max_seq,
        info.live > 0 ==> slot.state@.live.contains_key(info.min_seq)
            && slot.state@.live.contains_key(info.max_seq),
        info.live == 0 ==> info.min_seq == 0 && info.max_seq == 0,
        slot.state@.live.contains_key(s) && slot.state@.live[s] >= 0 && (forall|k: u64| #[trigger]
            slot.state@.live.contains_key(k) ==> slot.state@.live[k] >= 0) ==> info.oldest_ts_ms
            <= slot.state@.live[s],
{
    let live = slot.state@.live;
    oldest_is_minimum(live);
    if info.live == 0 {
        assert(live.dom() =~= Set::empty());
    } else {
        if forall|k: u64| !live.dom().contains(k) {
            assert(live.dom() =~= Set::empty());
        }
    }
}

} // verus!
