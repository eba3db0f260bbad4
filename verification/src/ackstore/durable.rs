//! What the log says against what is in memory.

use crate::ackstore::format::{
    frame, seq_op_round_trip, seq_payload, LogRecord, OP_CONFIRM, OP_CONFIRM_UP_TO, OP_EXPIRE,
    OP_RECORD, OP_REGISTER, OP_SNAPSHOT, OP_TOMBSTONE,
};
use crate::ackstore::replay::{
    append_applies, complete, entry, scan, written_confirm_ends_its_entry, written_record_is_live,
    ReplayModel,
};
use crate::ackstore::store::Slot;
use crate::ackstore::table::{changed_at, grown, SlotTable};
use crate::ackstore::wal_core::{expire_frames, record_frames};
use crate::text::text_of;
use vstd::prelude::*;

verus! {

/// A replayed state knows the slot by its names and holds every live entry of
/// it; with `exact`, no others.
pub open spec fn holds_slot(st: ReplayModel, s: Slot, exact: bool) -> bool {
    &&& st.names[s.slot_id] == (s.stream@, s.consumer@)
    &&& st.slots.contains_key(s.slot_id)
    &&& s.state@.live.dom().subset_of(st.slots[s.slot_id].dom())
    &&& exact ==> s.state@.live.dom() == st.slots[s.slot_id].dom()
}

/// A replayed state names exactly the slots of a table and holds every live
/// entry of each; with `exact`, no others. No id in it is free for reuse.
pub open spec fn covers(st: ReplayModel, t: SlotTable, exact: bool) -> bool {
    &&& forall|id: u32| st.names.contains_key(id) <==> t.has_id(id)
    &&& forall|i: int| 0 <= i < t.slots@.len() ==> holds_slot(st, #[trigger] t.slots@[i], exact)
    &&& forall|id: u32| #[trigger] st.slots.contains_key(id) ==> id < t.next_id
}

/// The ops that touch one slot's live set and no name.
pub open spec fn is_live_op(op: u8) -> bool {
    op == OP_RECORD || op == OP_CONFIRM || op == OP_EXPIRE || op == OP_CONFIRM_UP_TO || op
        == OP_SNAPSHOT
}

/// Two replayed states differ at most in the live set of one slot.
pub open spec fn same_but_live(st: ReplayModel, id: u32, st1: ReplayModel) -> bool {
    &&& st1.names == st.names
    &&& st1.slots.contains_key(id)
    &&& forall|k: u32| #[trigger]
        st1.slots.contains_key(k) && k != id ==> st.slots.contains_key(k) && st1.slots[k]
            == st.slots[k]
    &&& forall|k: u32| #[trigger] st.slots.contains_key(k) ==> st1.slots.contains_key(k)
}

/// The log changing in what it says of one slot, and that slot to match.
pub proof fn covers_changed(
    st: ReplayModel,
    t0: SlotTable,
    i: int,
    st1: ReplayModel,
    t1: SlotTable,
    exact: bool,
)
    requires
        t0.wf(),
        covers(st, t0, exact),
        changed_at(t0, i, t1),
        same_but_live(st, t0.slots@[i].slot_id, st1),
        t1.slots@[i].state@.live.dom().subset_of(st1.slots[t0.slots@[i].slot_id].dom()),
        exact ==> t1.slots@[i].state@.live.dom() == st1.slots[t0.slots@[i].slot_id].dom(),
    ensures
        covers(st1, t1, exact),
{
    assert forall|id: u32| st1.names.contains_key(id) <==> t1.has_id(id) by {
        if t0.has_id(id) {
            let k = choose|k: int| t0.id_at(id, k);
            assert(t1.id_at(id, k));
        }
        if t1.has_id(id) {
            let k = choose|k: int| t1.id_at(id, k);
            assert(t0.id_at(id, k));
        }
    }
    assert forall|j: int| 0 <= j < t1.slots@.len() implies holds_slot(
        st1,
        #[trigger] t1.slots@[j],
        exact,
    ) by {
        assert(holds_slot(st, t0.slots@[j], exact));
        if j != i {
            assert(t0.slots@[j].slot_id != t0.slots@[i].slot_id) by {
                if j < i {
                    assert(t0.slots@[j].slot_id < t0.slots@[i].slot_id);
                } else {
                    assert(t0.slots@[i].slot_id < t0.slots@[j].slot_id);
                }
            }
            assert(st1.slots.contains_key(t0.slots@[j].slot_id));
        }
    }
    assert forall|id: u32| #[trigger] st1.slots.contains_key(id) implies id < t1.next_id by {
        assert(t0.slots@[i].slot_id < t0.next_id);
    }
}

/// A record about one slot, and that slot changing to match.
pub proof fn covers_live_op(
    st: ReplayModel,
    t0: SlotTable,
    i: int,
    r: LogRecord,
    t1: SlotTable,
    exact: bool,
)
    requires
        t0.wf(),
        covers(st, t0, exact),
        changed_at(t0, i, t1),
        is_live_op(r.op),
        r.slot_id == t0.slots@[i].slot_id,
        t1.slots@[i].state@.live.dom().subset_of(st.apply(r, 0).slots[r.slot_id].dom()),
        exact ==> t1.slots@[i].state@.live.dom() == st.apply(r, 0).slots[r.slot_id].dom(),
    ensures
        covers(st.apply(r, 0), t1, exact),
{
    covers_changed(st, t0, i, st.apply(r, 0), t1, exact);
}

/// A record about a deleted slot changes nothing that is named.
pub proof fn covers_orphan_op(st: ReplayModel, t: SlotTable, r: LogRecord, exact: bool)
    requires
        covers(st, t, exact),
        is_live_op(r.op),
        !t.has_id(r.slot_id),
        r.slot_id < t.next_id,
    ensures
        covers(st.apply(r, 0), t, exact),
{
    let st1 = st.apply(r, 0);
    assert forall|j: int| 0 <= j < t.slots@.len() implies holds_slot(
        st1,
        #[trigger] t.slots@[j],
        exact,
    ) by {
        assert(holds_slot(st, t.slots@[j], exact));
        assert(t.id_at(t.slots@[j].slot_id, j));
    }
}

/// A registration and the slot that it registers.
pub proof fn covers_register(
    st: ReplayModel,
    t0: SlotTable,
    stream: Seq<char>,
    consumer: Seq<char>,
    now: i64,
    t1: SlotTable,
    r: LogRecord,
    exact: bool,
)
    requires
        t0.wf(),
        covers(st, t0, exact),
        grown(t0, stream, consumer, now, t1),
        r.op == OP_REGISTER,
        r.slot_id == t0.next_id,
        text_of(r.stream) == stream,
        text_of(r.consumer) == consumer,
    ensures
        covers(st.apply(r, 0), t1, exact),
{
    let st1 = st.apply(r, 0);
    let n = t0.slots@.len() as int;
    assert forall|j: int| 0 <= j < n implies t1.slots@[j] == t0.slots@[j] by {
        assert(t1.slots@.take(n)[j] == t0.slots@[j]);
    }
    assert forall|id: u32| st1.names.contains_key(id) <==> t1.has_id(id) by {
        if t0.has_id(id) {
            let k = choose|k: int| t0.id_at(id, k);
            assert(t1.id_at(id, k));
        }
        assert(t1.id_at(t0.next_id, n));
        if t1.has_id(id) {
            let k = choose|k: int| t1.id_at(id, k);
            if k < n {
                assert(t0.id_at(id, k));
            }
        }
    }
    assert(!st.slots.contains_key(t0.next_id));
    assert(st1.slots[t0.next_id] == Map::<u64, i64>::empty());
    assert forall|j: int| 0 <= j < t1.slots@.len() implies holds_slot(
        st1,
        #[trigger] t1.slots@[j],
        exact,
    ) by {
        if j < n {
            assert(holds_slot(st, t0.slots@[j], exact));
            assert(t0.slots@[j].slot_id < t0.next_id);
        } else {
            assert(t1.slots@[j].state@.live.dom() =~= Set::empty());
            assert(st1.slots[t0.next_id].dom() =~= Set::empty());
        }
    }
}

/// A tombstone and the slot that it buries.
pub proof fn covers_tombstone(
    st: ReplayModel,
    t0: SlotTable,
    i: int,
    t1: SlotTable,
    r: LogRecord,
    exact: bool,
)
    requires
        t0.wf(),
        covers(st, t0, exact),
        0 <= i < t0.slots@.len(),
        t1.slots@ == t0.slots@.remove(i),
        t1.next_id == t0.next_id,
        r.op == OP_TOMBSTONE,
        r.slot_id == t0.slots@[i].slot_id,
    ensures
        covers(st.apply(r, 0), t1, exact),
{
    let st1 = st.apply(r, 0);
    assert forall|j: int| 0 <= j < t1.slots@.len() implies #[trigger] t1.slots@[j]
        == t0.slots@[if j < i { j } else { j + 1 }] by {}
    assert forall|k: int| 0 <= k < t0.slots@.len() && k != i implies t0.slots@[k].slot_id
        != t0.slots@[i].slot_id by {
        if k < i {
            assert(t0.slots@[k].slot_id < t0.slots@[i].slot_id);
        } else {
            assert(t0.slots@[i].slot_id < t0.slots@[k].slot_id);
        }
    }
    assert forall|id: u32| st1.names.contains_key(id) <==> t1.has_id(id) by {
        if t0.has_id(id) && id != r.slot_id {
            let k = choose|k: int| t0.id_at(id, k);
            assert(t1.id_at(id, if k < i { k } else { k - 1 }));
        }
        if t1.has_id(id) {
            let k = choose|k: int| t1.id_at(id, k);
            let k0 = if k < i { k } else { k + 1 };
            assert(t1.slots@[k] == t0.slots@[k0]);
            assert(t0.id_at(id, k0));
        }
    }
    assert forall|j: int| 0 <= j < t1.slots@.len() implies holds_slot(
        st1,
        #[trigger] t1.slots@[j],
        exact,
    ) by {
        let k = if j < i { j } else { j + 1 };
        assert(holds_slot(st, t0.slots@[k], exact));
    }
}

/// A log to which one sequence-number frame was appended.
pub proof fn seq_op_applies(log: Seq<u8>, op: u8, slot_id: u32, ts_ms: u64, seq: u64)
    requires
        complete(log),
        op == OP_RECORD || op == OP_CONFIRM || op == OP_EXPIRE || op == OP_CONFIRM_UP_TO,
    ensures
        complete(log + frame(seq_payload(op, slot_id, ts_ms, seq))),
        scan(log + frame(seq_payload(op, slot_id, ts_ms, seq)), 0).0 == scan(log, 0).0.apply(
            LogRecord {
                op,
                slot_id,
                ts_ms,
                seq,
                stream: Seq::empty(),
                consumer: Seq::empty(),
                seqs: Seq::empty(),
            },
            0,
        ),
{
    seq_op_round_trip(op, slot_id, ts_ms, seq);
    append_applies(log, seq_payload(op, slot_id, ts_ms, seq), 0);
}

/// A log stays valid to its last byte when expire frames are appended.
pub proof fn expire_frames_complete(log: Seq<u8>, slot_id: u32, now: i64, seqs: Seq<u64>)
    requires
        complete(log),
    ensures
        complete(log + expire_frames(slot_id, now, seqs)),
    decreases seqs.len(),
{
    if seqs.len() == 0 {
        assert(log + expire_frames(slot_id, now, seqs) =~= log);
    } else {
        let head = seqs.drop_last();
        expire_frames_complete(log, slot_id, now, head);
        let log1 = log + expire_frames(slot_id, now, head);
        seq_op_applies(log1, OP_EXPIRE, slot_id, now as u64, seqs.last());
        assert(log + expire_frames(slot_id, now, seqs) =~= log1 + frame(
            seq_payload(OP_EXPIRE, slot_id, now as u64, seqs.last()),
        ));
    }
}

/// A log to which expire frames of one slot were appended.
pub proof fn expire_frames_apply(log: Seq<u8>, slot_id: u32, now: i64, seqs: Seq<u64>)
    requires
        complete(log),
        scan(log, 0).0.slots.contains_key(slot_id),
    ensures
        complete(log + expire_frames(slot_id, now, seqs)),
        same_but_live(
            scan(log, 0).0,
            slot_id,
            scan(log + expire_frames(slot_id, now, seqs), 0).0,
        ),
        scan(log + expire_frames(slot_id, now, seqs), 0).0.slots[slot_id] == scan(
            log,
            0,
        ).0.slots[slot_id].remove_keys(seqs.to_set()),
    decreases seqs.len(),
{
    let st = scan(log, 0).0;
    if seqs.len() == 0 {
        assert(log + expire_frames(slot_id, now, seqs) =~= log);
        assert(st.slots[slot_id].remove_keys(seqs.to_set()) =~= st.slots[slot_id]);
    } else {
        let head = seqs.drop_last();
        let seq = seqs.last();
        expire_frames_apply(log, slot_id, now, head);
        let log1 = log + expire_frames(slot_id, now, head);
        seq_op_applies(log1, OP_EXPIRE, slot_id, now as u64, seq);
        assert(log + expire_frames(slot_id, now, seqs) =~= log1 + frame(
            seq_payload(OP_EXPIRE, slot_id, now as u64, seq),
        ));
        assert(seqs =~= head.push(seq));
        crate::ackstore::live::push_contains(head, seq);
        let live = st.slots[slot_id];
        assert(live.remove_keys(head.to_set()).remove(seq) =~= live.remove_keys(seqs.to_set())) by {
            assert forall|v: u64| seqs.to_set().contains(v) == (head.to_set().contains(v) || v
                == seq) by {
                assert(seqs.contains(v) <==> (head.contains(v) || v == seq));
            }
        }
    }
}

/// A log that covers a table, after frames that drop entries of one slot, and
/// the slot without them.
pub proof fn covers_expired(
    log: Seq<u8>,
    t0: SlotTable,
    i: int,
    now: i64,
    seqs: Seq<u64>,
    t1: SlotTable,
    exact: bool,
)
    requires
        t0.wf(),
        complete(log),
        covers(scan(log, 0).0, t0, exact),
        changed_at(t0, i, t1),
        t1.slots@[i].state@.live.dom() == t0.slots@[i].state@.live.remove_keys(
            seqs.to_set(),
        ).dom(),
    ensures
        complete(log + expire_frames(t0.slots@[i].slot_id, now, seqs)),
        covers(scan(log + expire_frames(t0.slots@[i].slot_id, now, seqs), 0).0, t1, exact),
{
    let id = t0.slots@[i].slot_id;
    let st = scan(log, 0).0;
    assert(holds_slot(st, t0.slots@[i], exact));
    expire_frames_apply(log, id, now, seqs);
    let st1 = scan(log + expire_frames(id, now, seqs), 0).0;
    let a = t1.slots@[i].state@.live.dom();
    let b = st1.slots[id].dom();
    assert(a.subset_of(b));
    if exact {
        assert(a =~= b);
    }
    covers_changed(st, t0, i, st1, t1, exact);
}

/// A log to which the frames of a recording were appended.
proof fn record_frames_apply(log: Seq<u8>, id: u32, now: i64, seq: u64, gone: Seq<u64>)
    requires
        complete(log),
        scan(log, 0).0.slots.contains_key(id),
    ensures
        complete(log + record_frames(id, now, seq, gone)),
        same_but_live(scan(log, 0).0, id, scan(log + record_frames(id, now, seq, gone), 0).0),
        scan(log + record_frames(id, now, seq, gone), 0).0.slots[id].dom() == scan(
            log,
            0,
        ).0.slots[id].dom().insert(seq).difference(gone.to_set()),
{
    let st = scan(log, 0).0;
    let f = frame(seq_payload(OP_RECORD, id, now as u64, seq));
    seq_op_applies(log, OP_RECORD, id, now as u64, seq);
    let log1 = log + f;
    let st1 = scan(log1, 0).0;
    assert(st1.slots[id].dom() =~= st.slots[id].dom().insert(seq));
    assert(same_but_live(st, id, st1));
    expire_frames_apply(log1, id, now, gone);
    let whole = log + record_frames(id, now, seq, gone);
    assert(whole =~= log1 + expire_frames(id, now, gone));
    let st2 = scan(whole, 0).0;
    assert(same_but_live(st1, id, st2));
    assert(st2.slots[id].dom() =~= st1.slots[id].dom().difference(gone.to_set()));
    assert(same_but_live(st, id, st2));
}

/// A log that covers a table, after the frames of a recording that pushed
/// entries out, and the slot to match.
pub proof fn covers_recorded(
    log: Seq<u8>,
    t0: SlotTable,
    i: int,
    now: i64,
    seq: u64,
    gone: Seq<u64>,
    t1: SlotTable,
    exact: bool,
)
    requires
        t0.wf(),
        complete(log),
        covers(scan(log, 0).0, t0, exact),
        changed_at(t0, i, t1),
        t1.slots@[i].state@.live.dom() == t0.slots@[i].state@.live.dom().insert(seq).difference(
            gone.to_set(),
        ),
    ensures
        complete(log + record_frames(t0.slots@[i].slot_id, now, seq, gone)),
        covers(scan(log + record_frames(t0.slots@[i].slot_id, now, seq, gone), 0).0, t1, exact),
{
    let id = t0.slots@[i].slot_id;
    let st = scan(log, 0).0;
    assert(holds_slot(st, t0.slots@[i], exact));
    record_frames_apply(log, id, now, seq, gone);
    let st1 = scan(log + record_frames(id, now, seq, gone), 0).0;
    covers_changed(st, t0, i, st1, t1, exact);
}

// ── laws ───────────────────────────────────────────────────────────────────
/// Expiries that are written behind a valid log end what they list in their
/// slot, and nothing else, whatever the age limit.
pub proof fn written_expiries_end_their_entries(
    log: Seq<u8>,
    id: u32,
    now: i64,
    seqs: Seq<u64>,
    cutoff: i64,
    other_id: u32,
    other_seq: u64,
)
    requires
        complete(log),
    ensures
        complete(log + expire_frames(id, now, seqs)),
        entry(scan(log + expire_frames(id, now, seqs), cutoff).0, other_id, other_seq)
            == if other_id == id && seqs.contains(other_seq) {
            None
        } else {
            entry(scan(log, cutoff).0, other_id, other_seq)
        },
    decreases seqs.len(),
{
    if seqs.len() == 0 {
        assert(log + expire_frames(id, now, seqs) =~= log);
    } else {
        let t = seqs.drop_last();
        let z = seqs.last();
        let mid = log + expire_frames(id, now, t);
        written_expiries_end_their_entries(log, id, now, t, cutoff, other_id, other_seq);
        written_confirm_ends_its_entry(
            mid,
            OP_EXPIRE,
            id,
            now as u64,
            z,
            cutoff,
            other_id,
            other_seq,
        );
        assert(log + expire_frames(id, now, seqs) =~= mid + frame(
            seq_payload(OP_EXPIRE, id, now as u64, z),
        ));
        crate::ackstore::live::push_contains(t, z);
        assert(seqs =~= t.push(z));
    }
}

/// A recording comes back from the log with the time at which it was made, and
/// so under every age limit that it is not too old for. What it pushed out does
/// not come back, and nothing else changes.
pub proof fn recording_keeps_its_time(
    log: Seq<u8>,
    id: u32,
    now: i64,
    seq: u64,
    gone: Seq<u64>,
    cutoff: i64,
    other_id: u32,
    other_seq: u64,
)
    requires
        complete(log),
        now >= 0,
        cutoff <= now,
        !gone.contains(seq),
    ensures
        complete(log + record_frames(id, now, seq, gone)),
        entry(scan(log + record_frames(id, now, seq, gone), cutoff).0, id, seq) == Some(now),
        (other_id, other_seq) != (id, seq) ==> entry(
            scan(log + record_frames(id, now, seq, gone), cutoff).0,
            other_id,
            other_seq,
        ) == if other_id == id && gone.contains(other_seq) {
            None
        } else {
            entry(scan(log, cutoff).0, other_id, other_seq)
        },
{
    let mid = log + frame(seq_payload(OP_RECORD, id, now as u64, seq));
    written_record_is_live(log, id, now as u64, seq, cutoff, other_id, other_seq);
    written_expiries_end_their_entries(mid, id, now, gone, cutoff, id, seq);
    written_expiries_end_their_entries(mid, id, now, gone, cutoff, other_id, other_seq);
    assert(log + record_frames(id, now, seq, gone) =~= mid + expire_frames(id, now, gone));
}

} // verus!
