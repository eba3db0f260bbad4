//! Log compaction.
//!
//! A log only ever grows: a drop is one more record. Compaction writes a new
//! image that holds nothing but the live state: for every registered slot its
//! registration, and a snapshot where there is anything live. An empty slot
//! keeps its registration, since it may record again.

use crate::ackstore::durable::holds_slot;
use crate::ackstore::format::{
    frame, register_frame, register_payload, register_round_trip, seqs_bytes_len, FILE_MAGIC,
};
use crate::ackstore::live::listing;
use crate::ackstore::replay::{
    age_limit_takes_only_the_old, append_applies, complete, entry, no_limit_takes_nothing, scan,
    scan_bytes, stamped, ReplayModel, Replayed,
};
use crate::ackstore::snapshot::{
    listing_exists, live_snapshot, snapshot_of, snapshot_reads_back, MAX_SNAPSHOT_SEQS,
};
use crate::ackstore::store::StoreError;
use crate::ackstore::wal::Wal;
use crate::ackstore::wal_core::Counters;
use crate::ordered::{ascending32, listing32, listing32_of, lists32, sorted_keys32};
use crate::text::text_round_trip;
use vstd::prelude::*;
use vstd::utf8::encode_utf8;

verus! {

broadcast use {vstd::laws_cmp::group_laws_cmp, crate::le::le_bytes_len};

/// What a compacted image holds of one slot.
pub open spec fn compact_entry(st: ReplayModel, id: u32, now: u64) -> Seq<u8> {
    let name = st.names[id];
    let reg = frame(register_payload(id, now, encode_utf8(name.0), encode_utf8(name.1)));
    if st.live(id).dom().len() == 0 {
        reg
    } else {
        reg + frame(snapshot_of(id, now, st.live(id)))
    }
}

/// What a compacted image holds of a list of slots.
pub open spec fn compact_entries(st: ReplayModel, ids: Seq<u32>, now: u64) -> Seq<u8>
    decreases ids.len(),
{
    if ids.len() == 0 {
        Seq::empty()
    } else {
        compact_entries(st, ids.drop_last(), now) + compact_entry(st, ids.last(), now)
    }
}

/// The compacted image of a state: the magic, then every named slot in order
/// of id.
pub open spec fn compacted(st: ReplayModel, now: u64) -> Seq<u8> {
    FILE_MAGIC@ + compact_entries(st, listing32(st.names.dom()), now)
}

/// The compacted image of a state.
pub fn compact_image(st: &Replayed, now: u64) -> (r: Vec<u8>)
    ensures
        r@ == compacted(st@, now),
{
    let mut out: Vec<u8> = Vec::new();
    let mut i: usize = 0;
    while i < 8
        invariant
            i <= 8,
            out@ == FILE_MAGIC@.take(i as int),
        decreases 8 - i,
    {
        out.push(FILE_MAGIC[i]);
        i = i + 1;
        assert(out@ =~= FILE_MAGIC@.take(i as int));
    }
    assert(FILE_MAGIC@.take(8) =~= FILE_MAGIC@);
    let ids = sorted_keys32(&st.names);
    proof {
        assert(st@.names.dom() =~= st.names@.dom());
        listing32_of(ids@, st@.names.dom());
        assert(FILE_MAGIC@ + compact_entries(st@, ids@.take(0), now) =~= FILE_MAGIC@);
    }
    let mut k: usize = 0;
    while k < ids.len()
        invariant
            k <= ids@.len(),
            lists32(ids@, st@.names.dom()),
            out@ == FILE_MAGIC@ + compact_entries(st@, ids@.take(k as int), now),
        decreases ids@.len() - k,
    {
        let id: u32 = ids[k];
        let ghost before = out@;
        proof {
            assert(ids@.to_set().contains(id));
            assert(st@.names.contains_key(id));
            assert(ids@.take(k + 1).drop_last() =~= ids@.take(k as int));
        }
        let name = st.names.get(&id).unwrap();
        let reg = register_frame(id, now, name.0.as_str().as_bytes(), name.1.as_str().as_bytes());
        out.extend_from_slice(reg.as_slice());
        let ghost mut snapped = false;
        if let Some(live) = st.slots.get(&id) {
            assert(st@.slots.contains_key(id) && st@.live(id) == live@);
            if live.len() > 0 {
                let snap = live_snapshot(id, now, live);
                out.extend_from_slice(snap.as_slice());
                proof {
                    snapped = true;
                    assert(out@ =~= before + (reg@ + snap@));
                }
            }
        } else {
            assert(st@.live(id).dom() =~= Set::empty());
        }
        proof {
            if !snapped {
                assert(out@ =~= before + reg@);
            }
            assert(out@ == before + compact_entry(st@, id, now));
            assert(out@ =~= FILE_MAGIC@ + compact_entries(st@, ids@.take(k + 1), now));
        }
        k = k + 1;
    }
    assert(ids@.take(k as int) =~= ids@);
    out
}

impl Wal {
    /// The image that replaces a log whose bytes are `data`. The log is not
    /// touched; `compacted` follows once the image stands in its place.
    pub fn compact(&self, data: &[u8], now: i64) -> (r: Result<Vec<u8>, StoreError>)
        requires
            self.core.cfg.clock_ok(now),
        ensures
            match r {
                Ok(img) => !self.core.closed && img@ == compacted(
                    scan(data@, self.core.cfg.cutoff(now)).0,
                    now as u64,
                ),
                Err(e) => self.core.closed && e is Closed,
            },
    {
        if self.core.closed {
            return Err(StoreError::Closed);
        }
        let (st, _good) = scan_bytes(data, self.core.cfg.ttl_cutoff(now));
        Ok(compact_image(&st, now as u64))
    }

    /// The log is now `image`.
    pub fn compacted(&mut self, image: &[u8])
        requires
            old(self).wf(),
        ensures
            final(self).wf(),
            final(self).slots == old(self).slots,
            final(self).core.cfg == old(self).core.cfg,
            final(self).core.closed == old(self).core.closed,
            final(self).core.log@ == image@,
            final(self).core.pending@.len() == 0,
            final(self).core.size_ok(),
            final(self).core.counters == (Counters {
                recs_since_snap: 0,
                ..old(self).core.counters
            }),
    {
        self.core.pending = Vec::new();
        self.core.size = image.len() as i64;
        self.core.log = Ghost(image@);
        self.core.counters.recs_since_snap = 0;
    }
}

/// Every name and live set of a state is small enough to be read back.
pub open spec fn compaction_fits(st: ReplayModel) -> bool {
    &&& st.names.dom().finite()
    &&& forall|id: u32| #[trigger]
        st.names.contains_key(id) ==> {
            &&& encode_utf8(st.names[id].0).len() <= 65535
            &&& encode_utf8(st.names[id].1).len() <= 65535
            &&& st.live(id).dom().finite()
            &&& st.live(id).dom().len() <= MAX_SNAPSHOT_SEQS
        }
}

/// The state that is left of `st` when only `ids` are kept and their entries
/// are stamped anew.
pub open spec fn kept_state(st: ReplayModel, ids: Seq<u32>, now: u64) -> ReplayModel {
    ReplayModel {
        slots: Map::new(
            |id: u32| ids.contains(id),
            |id: u32|
                if st.live(id).dom().len() == 0 {
                    Map::empty()
                } else {
                    stamped(listing(st.live(id).dom()), now as i64)
                },
        ),
        names: Map::new(|id: u32| ids.contains(id), |id: u32| st.names[id]),
    }
}

proof fn push_contains32(s: Seq<u32>, x: u32)
    ensures
        forall|v: u32| #[trigger] s.push(x).contains(v) <==> (s.contains(v) || v == x),
{
    assert forall|v: u32| #[trigger] s.push(x).contains(v) <==> (s.contains(v) || v == x) by {
        if s.contains(v) {
            let j = choose|j: int| 0 <= j < s.len() && s[j] == v;
            assert(s.push(x)[j] == v);
        }
        assert(s.push(x)[s.len() as int] == x);
        if s.push(x).contains(v) {
            let j = choose|j: int| 0 <= j < s.push(x).len() && s.push(x)[j] == v;
            if j < s.len() {
                assert(s[j] == v);
            }
        }
    }
}

/// An image that holds the magic alone reads back as nothing.
proof fn empty_image_scan(st: ReplayModel, now: u64)
    ensures
        complete(FILE_MAGIC@ + compact_entries(st, Seq::empty(), now)),
        scan(FILE_MAGIC@ + compact_entries(st, Seq::empty(), now), 0).0 == kept_state(
            st,
            Seq::empty(),
            now,
        ),
{
    let img = FILE_MAGIC@ + compact_entries(st, Seq::empty(), now);
    assert(img =~= FILE_MAGIC@);
    assert(img.take(8) =~= FILE_MAGIC@);
    assert(kept_state(st, Seq::empty(), now) =~= ReplayModel::empty());
}

#[verifier::spinoff_prover]
#[verifier::rlimit(60)]
proof fn entries_scan(st: ReplayModel, ids: Seq<u32>, now: u64)
    requires
        compaction_fits(st),
        ascending32(ids),
        forall|i: int| 0 <= i < ids.len() ==> st.names.contains_key(#[trigger] ids[i]),
    ensures
        complete(FILE_MAGIC@ + compact_entries(st, ids, now)),
        scan(FILE_MAGIC@ + compact_entries(st, ids, now), 0).0 == kept_state(st, ids, now),
    decreases ids.len(),
{
    let img = FILE_MAGIC@ + compact_entries(st, ids, now);
    if ids.len() == 0 {
        assert(ids =~= Seq::empty());
        empty_image_scan(st, now);
    } else {
        let head = ids.drop_last();
        let id = ids.last();
        assert forall|i: int| 0 <= i < head.len() implies st.names.contains_key(
            #[trigger] head[i],
        ) by {
            assert(head[i] == ids[i]);
        }
        entries_scan(st, head, now);
        let img0 = FILE_MAGIC@ + compact_entries(st, head, now);
        assert(st.names.contains_key(ids[ids.len() - 1]));
        assert(!head.contains(id)) by {
            if head.contains(id) {
                let j = choose|j: int| 0 <= j < head.len() && head[j] == id;
                assert(ids[j] < ids[ids.len() - 1]);
            }
        }
        assert(ids =~= head.push(id));
        kept_state_grows(st, head, id, now);
        entry_scan(st, img0, id, now);
        assert(img =~= img0 + compact_entry(st, id, now));
    }
}

/// Keeping one more slot.
proof fn kept_state_grows(st: ReplayModel, head: Seq<u32>, id: u32, now: u64)
    requires
        !head.contains(id),
    ensures
        !kept_state(st, head, now).slots.contains_key(id),
        kept_state(st, head.push(id), now) == (ReplayModel {
            slots: kept_state(st, head, now).slots.insert(
                id,
                if st.live(id).dom().len() == 0 {
                    Map::empty()
                } else {
                    stamped(listing(st.live(id).dom()), now as i64)
                },
            ),
            names: kept_state(st, head, now).names.insert(id, st.names[id]),
        }),
{
    push_contains32(head, id);
    let k0 = kept_state(st, head, now);
    let k1 = kept_state(st, head.push(id), now);
    assert(k1.names =~= k0.names.insert(id, st.names[id]));
    assert(k1.slots =~= k0.slots.insert(
        id,
        if st.live(id).dom().len() == 0 {
            Map::empty()
        } else {
            stamped(listing(st.live(id).dom()), now as i64)
        },
    ));
}

/// Appending one slot's entry to an image that does not know the slot.
proof fn entry_scan(st: ReplayModel, img: Seq<u8>, id: u32, now: u64)
    requires
        compaction_fits(st),
        st.names.contains_key(id),
        complete(img),
        !scan(img, 0).0.slots.contains_key(id),
    ensures
        complete(img + compact_entry(st, id, now)),
        scan(img + compact_entry(st, id, now), 0).0 == (ReplayModel {
            slots: scan(img, 0).0.slots.insert(
                id,
                if st.live(id).dom().len() == 0 {
                    Map::empty()
                } else {
                    stamped(listing(st.live(id).dom()), now as i64)
                },
            ),
            names: scan(img, 0).0.names.insert(id, st.names[id]),
        }),
{
    let st0 = scan(img, 0).0;
    let name = st.names[id];
    let live = st.live(id);
    let s8 = encode_utf8(name.0);
    let c8 = encode_utf8(name.1);
    let reg = register_payload(id, now, s8, c8);
    register_round_trip(id, now, s8, c8);
    text_round_trip(name.0);
    text_round_trip(name.1);
    append_applies(img, reg, 0);
    let img1 = img + frame(reg);
    let st1 = scan(img1, 0).0;
    assert(st1.slots == st0.slots.insert(id, Map::empty()));
    assert(st1.names == st0.names.insert(id, name));
    if live.dom().len() != 0 {
        let seqs = listing(live.dom());
        listing_exists(live);
        snapshot_reads_back(id, now, live, seqs);
        append_applies(img1, snapshot_of(id, now, live), 0);
        assert(img + compact_entry(st, id, now) =~= img1 + frame(snapshot_of(id, now, live)));
        assert(st1.slots.insert(id, stamped(seqs, now as i64)) =~= st0.slots.insert(
            id,
            stamped(seqs, now as i64),
        ));
    }
}

/// Bytes that a compacted image holds of one slot: its registration, and its
/// snapshot where anything is live.
pub open spec fn entry_size(st: ReplayModel, id: u32) -> nat {
    let names = encode_utf8(st.names[id].0).len() + encode_utf8(st.names[id].1).len();
    let live = st.live(id).dom().len();
    25 + names + if live == 0 {
        0
    } else {
        41 + 8 * live
    }
}

/// Bytes that a compacted image holds of a list of slots.
pub open spec fn entries_bytes(st: ReplayModel, ids: Seq<u32>) -> nat
    decreases ids.len(),
{
    if ids.len() == 0 {
        0
    } else {
        entries_bytes(st, ids.drop_last()) + entry_size(st, ids.last())
    }
}

proof fn entry_len(st: ReplayModel, id: u32, now: u64)
    requires
        st.live(id).dom().finite(),
    ensures
        compact_entry(st, id, now).len() == entry_size(st, id),
{
    let live = st.live(id);
    if live.dom().len() != 0 {
        listing_exists(live);
        seqs_bytes_len(listing(live.dom()));
    }
}

proof fn entries_len(st: ReplayModel, ids: Seq<u32>, now: u64)
    requires
        forall|i: int| 0 <= i < ids.len() ==> st.live(#[trigger] ids[i]).dom().finite(),
    ensures
        compact_entries(st, ids, now).len() == entries_bytes(st, ids),
    decreases ids.len(),
{
    if ids.len() > 0 {
        assert(st.live(ids[ids.len() - 1]).dom().finite());
        assert forall|i: int| 0 <= i < ids.drop_last().len() implies st.live(
            #[trigger] ids.drop_last()[i],
        ).dom().finite() by {
            assert(st.live(ids[i]).dom().finite());
        }
        entries_len(st, ids.drop_last(), now);
        entry_len(st, ids.last(), now);
    }
}

/// The size of a compacted image depends on the live state alone: the magic,
/// and for each named slot its registration and a snapshot of what is live.
pub proof fn compacted_size(st: ReplayModel, ids: Seq<u32>, now: u64)
    requires
        lists32(ids, st.names.dom()),
        forall|id: u32| #[trigger] st.names.contains_key(id) ==> st.live(id).dom().finite(),
    ensures
        compacted(st, now).len() == 8 + entries_bytes(st, ids),
{
    listing32_of(ids, st.names.dom());
    assert forall|i: int| 0 <= i < ids.len() implies st.live(#[trigger] ids[i]).dom().finite() by {
        assert(ids.to_set().contains(ids[i]));
        assert(st.names.contains_key(ids[i]));
    }
    entries_len(st, ids, now);
}

/// Compaction keeps the names and every live entry, and gives back a valid
/// image: reading the compacted image finds the same slots under the same
/// names with the same live sequence numbers.
pub proof fn compaction_preserves(st: ReplayModel, ids: Seq<u32>, now: u64)
    requires
        compaction_fits(st),
        lists32(ids, st.names.dom()),
    ensures
        complete(compacted(st, now)),
        scan(compacted(st, now), 0).0.names == st.names,
        scan(compacted(st, now), 0).0.slots.dom() == st.names.dom(),
        forall|id: u32| #[trigger]
            st.names.contains_key(id) ==> scan(compacted(st, now), 0).0.slots[id].dom() == st.live(
                id,
            ).dom(),
{
    listing32_of(ids, st.names.dom());
    assert forall|i: int| 0 <= i < ids.len() implies st.names.contains_key(#[trigger] ids[i]) by {
        assert(ids.to_set().contains(ids[i]));
    }
    entries_scan(st, ids, now);
    let k = kept_state(st, ids, now);
    assert forall|id: u32| ids.contains(id) <==> st.names.contains_key(id) by {
        assert(ids.to_set().contains(id) <==> st.names.dom().contains(id));
    }
    assert(k.names =~= st.names);
    assert(k.slots.dom() =~= st.names.dom());
    assert forall|id: u32| #[trigger] st.names.contains_key(id) implies k.slots[id].dom()
        == st.live(id).dom() by {
        let live = st.live(id);
        if live.dom().len() == 0 {
            assert(live.dom() =~= Set::empty());
            assert(k.slots[id].dom() =~= Set::empty());
        } else {
            listing_exists(live);
            snapshot_reads_back(id, now, live, listing(live.dom()));
        }
    }
}

/// A store whose log was compacted, without an age limit, still has every
/// known slot and live entry in its log.
pub proof fn compaction_is_durable(w0: Wal, w1: Wal, ids: Seq<u32>, now: u64, exact: bool)
    requires
        w0.wf(),
        w0.durable(exact),
        compaction_fits(scan(w0.core.log@, 0).0),
        lists32(ids, scan(w0.core.log@, 0).0.names.dom()),
        w1.slots == w0.slots,
        w1.core.log@ == compacted(scan(w0.core.log@, 0).0, now),
    ensures
        w1.durable(exact),
{
    let st = scan(w0.core.log@, 0).0;
    let st1 = scan(w1.core.log@, 0).0;
    let t = w0.slots;
    compaction_preserves(st, ids, now);
    assert forall|i: int| 0 <= i < t.slots@.len() implies holds_slot(
        st1,
        #[trigger] t.slots@[i],
        exact,
    ) by {
        assert(holds_slot(st, t.slots@[i], exact));
        assert(t.id_at(t.slots@[i].slot_id, i));
        assert(t.has_id(t.slots@[i].slot_id));
        assert(st.names.contains_key(t.slots@[i].slot_id));
    }
    assert forall|id: u32| #[trigger] st1.slots.contains_key(id) implies id < t.next_id by {
        assert(st.names.contains_key(id));
        assert(t.has_id(id));
        let i = choose|i: int| t.id_at(id, i);
        assert(t.slots@[i].slot_id < t.next_id);
    }
}

/// Compaction loses nothing to the age limit: what is live in a compacted image
/// comes back under every limit that a recording of the time of the compaction
/// is not too old for, and nothing else does.
pub proof fn compaction_keeps_what_is_live(
    st: ReplayModel,
    ids: Seq<u32>,
    now: i64,
    cutoff: i64,
    id: u32,
    s: u64,
)
    requires
        compaction_fits(st),
        lists32(ids, st.names.dom()),
        0 <= now,
        cutoff <= now,
    ensures
        ({
            let img = scan(compacted(st, now as u64), cutoff).0;
            &&& img.names == st.names
            &&& st.names.contains_key(id) ==> entry(img, id, s) == match entry(st, id, s) {
                Some(_) => Some(now),
                None => None,
            }
            &&& !st.names.contains_key(id) ==> entry(img, id, s) is None
        }),
{
    let data = compacted(st, now as u64);
    compaction_preserves(st, ids, now as u64);
    listing32_of(ids, st.names.dom());
    assert forall|i: int| 0 <= i < ids.len() implies st.names.contains_key(#[trigger] ids[i]) by {
        assert(ids.to_set().contains(ids[i]));
    }
    entries_scan(st, ids, now as u64);
    let k = kept_state(st, ids, now as u64);
    assert(scan(data, 0).0 == k);
    assert(ids.contains(id) <==> st.names.contains_key(id)) by {
        assert(ids.to_set().contains(id) <==> st.names.dom().contains(id));
    }
    if st.names.contains_key(id) {
        assert(k.slots[id].dom() == st.live(id).dom());
        assert(entry(k, id, s) is Some == entry(st, id, s) is Some) by {
            assert(k.slots[id].dom().contains(s) == st.live(id).dom().contains(s));
        }
        if entry(st, id, s) is Some {
            if st.live(id).dom().len() == 0 {
                assert(st.live(id).dom() =~= Set::empty());
            }
        }
    }
    if cutoff > 0 {
        age_limit_takes_only_the_old(data, cutoff);
        let _ = entry(scan(data, 0).0, id, s);
    } else {
        no_limit_takes_nothing(data, cutoff);
    }
}

} // verus!
