//! What a restart brings back.

use crate::ackstore::durable::{covers, holds_slot};
use crate::ackstore::format::{LogRecord, FILE_MAGIC};
use crate::ackstore::replay::{
    age_limit_takes_only_the_old, complete, entry, expired_stays_gone, frame_at, has_magic,
    no_limit_takes_nothing, scan, scan_from, truncation_is_harmless, ReplayModel,
};
use crate::ackstore::slot::{seen_is_exact, SlotModel};
use crate::ackstore::snapshot::listing_exists;
use crate::ackstore::store::key_of;
use crate::ackstore::table::SlotTable;
use crate::ackstore::wal::{came_back, distinct_keys, represented, restored, Wal};
use vstd::prelude::*;

verus! {

/// Every name in a state belongs to a slot in it.
pub open spec fn names_have_slots(st: ReplayModel) -> bool {
    forall|id: u32| #[trigger] st.names.contains_key(id) ==> st.slots.contains_key(id)
}

/// `a` holds no more than `b`, under the same names.
pub open spec fn within(a: ReplayModel, b: ReplayModel) -> bool {
    &&& a.names == b.names
    &&& forall|id: u32| #[trigger] a.slots.contains_key(id) ==> b.slots.contains_key(id)
    &&& forall|id: u32| (#[trigger] a.live(id)).dom().subset_of(b.live(id).dom())
}

proof fn scan_from_names(data: Seq<u8>, pos: int, st: ReplayModel, cutoff: i64)
    requires
        names_have_slots(st),
    ensures
        names_have_slots(scan_from(data, pos, st, cutoff).0),
    decreases data.len() - pos,
{
    match frame_at(data, pos) {
        Some((r, end)) => {
            if pos < end && end <= data.len() {
                scan_from_names(data, end, st.apply(r, cutoff), cutoff);
            }
        },
        None => {},
    }
}

proof fn apply_within(a: ReplayModel, b: ReplayModel, r: LogRecord, cutoff: i64)
    requires
        within(a, b),
    ensures
        within(a.apply(r, cutoff), b.apply(r, 0)),
{
    let a1 = a.apply(r, cutoff);
    let b1 = b.apply(r, 0);
    assert(a.live(r.slot_id).dom().subset_of(b.live(r.slot_id).dom()));
    assert forall|id: u32| (#[trigger] a1.live(id)).dom().subset_of(b1.live(id).dom()) by {
        assert(a.live(id).dom().subset_of(b.live(id).dom()));
    }
}

proof fn scan_from_within(data: Seq<u8>, pos: int, a: ReplayModel, b: ReplayModel, cutoff: i64)
    requires
        within(a, b),
    ensures
        within(scan_from(data, pos, a, cutoff).0, scan_from(data, pos, b, 0).0),
        scan_from(data, pos, a, cutoff).1 == scan_from(data, pos, b, 0).1,
        cutoff <= 0 && a == b ==> scan_from(data, pos, a, cutoff) == scan_from(data, pos, b, 0),
    decreases data.len() - pos,
{
    match frame_at(data, pos) {
        Some((r, end)) => {
            if pos < end && end <= data.len() {
                apply_within(a, b, r, cutoff);
                scan_from_within(data, end, a.apply(r, cutoff), b.apply(r, 0), cutoff);
            }
        },
        None => {},
    }
}

/// An age limit only ever takes entries away: the slots and their names come
/// back as without it.
pub proof fn age_limit_only_removes(data: Seq<u8>, cutoff: i64)
    ensures
        within(scan(data, cutoff).0, scan(data, 0).0),
        scan(data, cutoff).1 == scan(data, 0).1,
        cutoff <= 0 ==> scan(data, cutoff) == scan(data, 0),
        names_have_slots(scan(data, 0).0),
{
    scan_from_within(data, 8, ReplayModel::empty(), ReplayModel::empty(), cutoff);
    scan_from_names(data, 8, ReplayModel::empty(), 0);
}

/// With distinct names, a rebuilt table knows exactly the named slots.
proof fn restored_ids(st: ReplayModel, now: i64, t: SlotTable, cap: Option<usize>)
    requires
        restored(st, now, t, cap),
        distinct_keys(st),
        names_have_slots(st),
    ensures
        forall|id: u32| st.names.contains_key(id) <==> t.has_id(id),
{
    assert forall|id: u32| st.names.contains_key(id) <==> t.has_id(id) by {
        if st.names.contains_key(id) {
            let key = key_of(st.names[id].0, st.names[id].1);
            assert(represented(t, key, id));
            let i = choose|i: int| #[trigger] t.key_at(key, i) && t.slots@[i].slot_id >= id;
            let s = t.slots@[i];
            assert(came_back(st, s, now, cap));
            assert(s.wf());
            assert(st.names.contains_key(s.slot_id));
            assert(key_of(st.names[s.slot_id].0, st.names[s.slot_id].1) == key);
            assert(s.slot_id == id);
            assert(t.id_at(id, i));
        }
        if t.has_id(id) {
            let i = choose|i: int| t.id_at(id, i);
            assert(came_back(st, t.slots@[i], now, cap));
        }
    }
}

/// A store that was just rebuilt, and before the cap is applied, has everything
/// it brought back in its log; and nothing else, unless an age limit held
/// something back.
///
/// `log` is the kept part of `data`, or the bare magic where nothing was kept.
/// Two things are asked of the file: no two slots in it carry the same name,
/// and the age limit hides no id without a name.
pub proof fn opened_is_durable(data: Seq<u8>, cutoff: i64, now: i64, t: SlotTable, log: Seq<u8>)
    requires
        restored(scan(data, cutoff).0, now, t, None),
        distinct_keys(scan(data, 0).0),
        forall|id: u32| #[trigger]
            scan(data, 0).0.slots.contains_key(id) ==> id < t.next_id,
        log == if scan(data, cutoff).1 == 0 {
            FILE_MAGIC@
        } else {
            data.take(scan(data, cutoff).1)
        },
    ensures
        complete(log),
        covers(scan(log, 0).0, t, false),
        cutoff <= 0 ==> covers(scan(log, 0).0, t, true),
{
    age_limit_only_removes(data, cutoff);
    let cap = None::<usize>;
    let st = scan(data, cutoff).0;
    let st0 = scan(data, 0).0;
    assert(names_have_slots(st)) by {
        scan_from_names(data, 8, ReplayModel::empty(), cutoff);
    }
    if has_magic(data) {
        truncation_is_harmless(data, 0);
        assert(scan(data, cutoff).1 != 0);
    } else {
        assert(log.take(8) =~= FILE_MAGIC@);
        assert(frame_at(log, 8) is None);
    }
    assert(scan(log, 0).0 == st0);
    restored_ids(st, now, t, cap);
    assert forall|i: int| 0 <= i < t.slots@.len() implies holds_slot(
        st0,
        #[trigger] t.slots@[i],
        cutoff <= 0,
    ) by {
        let s = t.slots@[i];
        assert(came_back(st, s, now, None));
        assert(st.live(s.slot_id).dom().subset_of(st0.live(s.slot_id).dom()));
        assert(st0.slots.contains_key(s.slot_id));
    }
}

/// A slot that the log holds within the cap comes back whole.
proof fn within_cap_comes_back(st: ReplayModel, t: SlotTable, i: int, now: i64, cap: usize)
    requires
        restored(st, now, t, Some(cap)),
        0 <= i < t.slots@.len(),
        st.slots[t.slots@[i].slot_id].dom().finite(),
        st.slots[t.slots@[i].slot_id].dom().len() <= cap,
    ensures
        t.slots@[i].state@.live == st.slots[t.slots@[i].slot_id],
{
    let live = st.slots[t.slots@[i].slot_id];
    assert(came_back(st, t.slots@[i], now, Some(cap)));
    listing_exists(live);
    let m = SlotModel::replayed(live);
    assert(m.surplus(cap) =~= Seq::empty());
    assert(m.capped(cap).live =~= live);
}

/// Restarting from a log gives back what was in memory: the same slots under
/// the same ids and names, each with the same live sequence numbers.
pub proof fn restart_restores(w: Wal, t: SlotTable, now: i64)
    requires
        w.wf(),
        w.durable(true),
        restored(scan(w.core.log@, 0).0, now, t, Some(w.core.cfg.max_cap)),
    ensures
        forall|id: u32| t.has_id(id) == w.slots.has_id(id),
        forall|id: u32| (#[trigger] t.model(id)).live.dom() == w.slots.model(id).live.dom(),
        forall|i: int, j: int|
            #![trigger t.slots@[i], w.slots.slots@[j]]
            0 <= i < t.slots@.len() && 0 <= j < w.slots.slots@.len() && t.slots@[i].slot_id
                == w.slots.slots@[j].slot_id ==> t.slots@[i].stream@ == w.slots.slots@[j].stream@
                && t.slots@[i].consumer@ == w.slots.slots@[j].consumer@,
{
    let st = scan(w.core.log@, 0).0;
    let u = w.slots;
    let cap = Some(w.core.cfg.max_cap);
    covered_is_distinct(st, u, true);
    scan_from_names(w.core.log@, 8, ReplayModel::empty(), 0);
    restored_ids(st, now, t, cap);
    assert forall|id: u32| (#[trigger] t.model(id)).live.dom() == u.model(id).live.dom() by {
        if t.has_id(id) {
            let i = choose|i: int| t.id_at(id, i);
            assert(u.has_id(id));
            let j = choose|j: int| u.id_at(id, j);
            t.model_at(i);
            u.model_at(j);
            assert(holds_slot(st, u.slots@[j], true));
            assert(u.slots@[j].wf());
            assert(u.slots@[j].state@.live.dom().len() <= w.core.cfg.max_cap);
            within_cap_comes_back(st, t, i, now, w.core.cfg.max_cap);
        }
    }
    assert forall|i: int, j: int|
        #![trigger t.slots@[i], u.slots@[j]]
        0 <= i < t.slots@.len() && 0 <= j < u.slots@.len() && t.slots@[i].slot_id
            == u.slots@[j].slot_id implies t.slots@[i].stream@ == u.slots@[j].stream@
        && t.slots@[i].consumer@ == u.slots@[j].consumer@ by {
        assert(came_back(st, t.slots@[i], now, cap));
        assert(holds_slot(st, u.slots@[j], true));
    }
}

/// A log that covers a table carries no name twice.
proof fn covered_is_distinct(st: ReplayModel, t: SlotTable, exact: bool)
    requires
        t.wf(),
        covers(st, t, exact),
    ensures
        distinct_keys(st),
{
    assert forall|a: u32, b: u32| #[trigger]
        st.names.contains_key(a) && #[trigger] st.names.contains_key(b) && key_of(
            st.names[a].0,
            st.names[a].1,
        ) == key_of(st.names[b].0, st.names[b].1) implies a == b by {
        assert(t.has_id(a) && t.has_id(b));
        let i = choose|i: int| t.id_at(a, i);
        let j = choose|j: int| t.id_at(b, j);
        assert(holds_slot(st, t.slots@[i], exact));
        assert(holds_slot(st, t.slots@[j], exact));
        assert(t.slots@[i].wf() && t.slots@[j].wf());
        if i < j {
            assert(t.slots@[i].key@ != t.slots@[j].key@);
        } else if j < i {
            assert(t.slots@[j].key@ != t.slots@[i].key@);
        }
    }
}

/// The log says nothing of a slot that the cap would have to leave out.
pub open spec fn log_within_cap(w: Wal) -> bool {
    forall|id: u32| #[trigger]
        scan(w.core.log@, 0).0.slots.contains_key(id) ==> {
            let d = scan(w.core.log@, 0).0.slots[id].dom();
            d.finite() && d.len() <= w.core.cfg.max_cap
        }
}

/// Nothing live is lost in a restart, even where the log still holds what an
/// age limit has kept out of memory (that may come back).
pub proof fn restart_loses_nothing(w: Wal, t: SlotTable, now: i64)
    requires
        w.wf(),
        w.durable(true) || (w.durable(false) && log_within_cap(w)),
        restored(scan(w.core.log@, 0).0, now, t, Some(w.core.cfg.max_cap)),
    ensures
        forall|id: u32| t.has_id(id) == w.slots.has_id(id),
        forall|id: u32|
            w.slots.model(id).live.dom().subset_of((#[trigger] t.model(id)).live.dom()),
{
    let st = scan(w.core.log@, 0).0;
    let u = w.slots;
    let cap = w.core.cfg.max_cap;
    if w.durable(true) {
        restart_restores(w, t, now);
    } else {
        covered_is_distinct(st, u, false);
        scan_from_names(w.core.log@, 8, ReplayModel::empty(), 0);
        restored_ids(st, now, t, Some(cap));
        assert forall|id: u32|
            u.model(id).live.dom().subset_of((#[trigger] t.model(id)).live.dom()) by {
            if t.has_id(id) {
                let i = choose|i: int| t.id_at(id, i);
                assert(u.has_id(id));
                let j = choose|j: int| u.id_at(id, j);
                t.model_at(i);
                u.model_at(j);
                assert(holds_slot(st, u.slots@[j], false));
                assert(st.slots.contains_key(id));
                within_cap_comes_back(st, t, i, now, cap);
            }
        }
    }
}

/// What was recorded as processed before a restart is recognised after it.
pub proof fn recorded_survives_restart(w: Wal, t: SlotTable, now: i64, id: u32, seq: u64)
    requires
        w.wf(),
        w.durable(true) || (w.durable(false) && log_within_cap(w)),
        restored(scan(w.core.log@, 0).0, now, t, Some(w.core.cfg.max_cap)),
        w.slots.model(id).live.contains_key(seq),
    ensures
        t.model(id).seen(seq),
{
    restart_loses_nothing(w, t, now);
    assert(w.slots.model(id).live.dom().subset_of(t.model(id).live.dom()));
    assert(t.model(id).live.contains_key(seq));
    let i = choose|i: int| t.id_at(id, i);
    t.model_at(i);
    assert(t.slots@[i].wf());
    seen_is_exact(t.model(id), seq);
}

/// What the log holds and the age limit leaves is recognised after a restart,
/// under the names that it was recorded under: for every log in which no two
/// slots carry the same names, and every entry in it that is not older than the
/// cutoff, as long as the slot is within the cap.
pub proof fn recent_entries_are_recognised(
    data: Seq<u8>,
    cutoff: i64,
    now: i64,
    t: SlotTable,
    cap: usize,
    id: u32,
    seq: u64,
)
    requires
        restored(scan(data, cutoff).0, now, t, Some(cap)),
        distinct_keys(scan(data, 0).0),
        scan(data, 0).0.names.contains_key(id),
        entry(scan(data, 0).0, id, seq) matches Some(ts) && (cutoff <= 0 || ts >= cutoff),
        scan(data, cutoff).0.slots[id].dom().finite(),
        scan(data, cutoff).0.slots[id].dom().len() <= cap,
    ensures
        t.has_id(id),
        t.model(id).seen(seq),
        exists|i: int| #[trigger]
            t.id_at(id, i) && (t.slots@[i].stream@, t.slots@[i].consumer@) == scan(
                data,
                0,
            ).0.names[id],
{
    let st = scan(data, cutoff).0;
    if cutoff > 0 {
        age_limit_takes_only_the_old(data, cutoff);
        assert(entry(st, id, seq) == entry(scan(data, 0).0, id, seq));
    } else {
        no_limit_takes_nothing(data, cutoff);
    }
    scan_from_names(data, 8, ReplayModel::empty(), cutoff);
    restored_ids(st, now, t, Some(cap));
    assert(t.has_id(id));
    let i = choose|i: int| t.id_at(id, i);
    assert(came_back(st, t.slots@[i], now, Some(cap)));
    within_cap_comes_back(st, t, i, now, cap);
    t.model_at(i);
    assert(t.slots@[i].wf());
    seen_is_exact(t.model(id), seq);
}

/// Nothing is recognised after a restart that the log does not hold, or that
/// the age limit takes away.
pub proof fn nothing_else_is_recognised(
    data: Seq<u8>,
    cutoff: i64,
    now: i64,
    t: SlotTable,
    cap: usize,
    id: u32,
    seq: u64,
)
    requires
        restored(scan(data, cutoff).0, now, t, Some(cap)),
        t.model(id).seen(seq),
    ensures
        entry(scan(data, 0).0, id, seq) is Some,
        cutoff > 0 ==> (entry(scan(data, cutoff).0, id, seq) matches Some(ts) && ts >= cutoff),
{
    let st = scan(data, cutoff).0;
    assert(t.has_id(id)) by {
        if !t.has_id(id) {
            assert(t.model(id).live =~= Map::empty());
        }
    }
    let i = choose|i: int| t.id_at(id, i);
    t.model_at(i);
    assert(came_back(st, t.slots@[i], now, Some(cap)));
    assert(t.slots@[i].wf());
    seen_is_exact(t.model(id), seq);
    assert(entry(st, id, seq) is Some);
    if cutoff > 0 {
        age_limit_takes_only_the_old(data, cutoff);
        expired_stays_gone(data, cutoff);
        assert(st.slots[id].contains_key(seq));
    } else {
        no_limit_takes_nothing(data, cutoff);
    }
}

} // verus!
