//! Acks and nacks on their way out: gathered, grouped by consumer, numbered.

use crate::ackrel::pending::{smallest, two32};
use crate::ackrel::relay::{active, expired_slot, expired_total, AckRelay};
use crate::consume::message::{AckCmd, NackCmd};
use crate::metrics::ClientMetrics;
use crate::ordered::{ascending32, listing32, listing32_of, lists32, sorted_keys32};
use crate::state::seq::{counter_after, SeqAllocator};
use std::collections::BTreeMap;
use vstd::prelude::*;

verus! {

broadcast use vstd::laws_cmp::group_laws_cmp;

/// Commands gathered into one round at most.
pub const ANSWER_BATCH_MAX: usize = 64;

/// Deferred acks per consumer that one sweep sends.
pub const SWEEP_MAX: usize = 1000;

/// Sweeps between two checks for expired acks.
pub const EXPIRE_EVERY_TICKS: u32 = 600;

/// An answer to a delivery.
pub trait Answer: Copy {
    /// The consumer it belongs to.
    spec fn to(&self) -> u32;

    /// It can travel in a frame of its own, which has no room for a delay.
    spec fn plain(&self) -> bool;

    fn consumer(&self) -> (r: u32)
        ensures
            r == self.to(),
    ;

    fn is_plain(&self) -> (r: bool)
        ensures
            r == self.plain(),
    ;
}

impl Answer for AckCmd {
    open spec fn to(&self) -> u32 {
        self.consumer_id
    }

    open spec fn plain(&self) -> bool {
        true
    }

    fn consumer(&self) -> (r: u32) {
        self.consumer_id
    }

    fn is_plain(&self) -> (r: bool) {
        true
    }
}

impl Answer for NackCmd {
    open spec fn to(&self) -> u32 {
        self.consumer_id
    }

    open spec fn plain(&self) -> bool {
        self.delay_ms == 0
    }

    fn consumer(&self) -> (r: u32) {
        self.consumer_id
    }

    fn is_plain(&self) -> (r: bool) {
        self.delay_ms == 0
    }
}

/// The commands of one round.
pub struct Batch<C> {
    pub cmds: Vec<C>,
}

impl<C> Batch<C> {
    /// A round starts with the command that was waited for.
    pub fn start(first: C) -> (r: Batch<C>)
        ensures
            r.cmds@ == seq![first],
    {
        let mut cmds: Vec<C> = Vec::new();
        cmds.push(first);
        assert(cmds@ =~= seq![first]);
        Batch { cmds }
    }

    /// Take in another command that is already there. Returns whether the
    /// round is full.
    pub fn push(&mut self, cmd: C) -> (full: bool)
        ensures
            final(self).cmds@ == old(self).cmds@.push(cmd),
            full == (final(self).cmds@.len() >= ANSWER_BATCH_MAX),
            full <==> final(self).cmds@.len() >= 64,
    {
        self.cmds.push(cmd);
        self.cmds.len() >= ANSWER_BATCH_MAX
    }
}

/// A frame of answers for one consumer.
pub enum AnswerFrame<C> {
    /// One plain answer.
    Single { number: u64, cmd: C },
    Many { number: u64, consumer_id: u32, cmds: Vec<C> },
}

/// The consumers that a round concerns.
pub open spec fn consumers<C: Answer>(batch: Seq<C>) -> Set<u32> {
    Set::new(|id: u32| exists|i: int| 0 <= i < batch.len() && (#[trigger] batch[i]).to() == id)
}

/// The commands of one consumer, in order.
pub open spec fn for_consumer<C: Answer>(batch: Seq<C>, id: u32) -> Seq<C> {
    batch.filter(|c: C| c.to() == id)
}

/// `f` carries these commands of a consumer: alone where there is one plain
/// command, as a list otherwise.
pub open spec fn frames_answers<C: Answer>(
    f: AnswerFrame<C>,
    number: u64,
    id: u32,
    cmds: Seq<C>,
) -> bool {
    match f {
        AnswerFrame::Single { number: n, cmd } => n == number && cmds == seq![cmd] && cmd.plain(),
        AnswerFrame::Many { number: n, consumer_id, cmds: v } => {
            &&& n == number
            &&& consumer_id == id
            &&& v@ == cmds
            &&& !(cmds.len() == 1 && cmds[0].plain())
        },
    }
}

/// The distinct consumers of a round, ascending.
fn consumer_ids<C: Answer>(batch: &Vec<C>) -> (r: Vec<u32>)
    ensures
        lists32(r@, consumers(batch@)),
{
    let mut seen: BTreeMap<u32, bool> = BTreeMap::new();
    let mut i: usize = 0;
    assert(seen@.dom() =~= consumers(batch@.take(0)));
    while i < batch.len()
        invariant
            i <= batch@.len(),
            seen@.dom() == consumers(batch@.take(i as int)),
        decreases batch@.len() - i,
    {
        let id: u32 = batch[i].consumer();
        seen.insert(id, true);
        proof {
            let t0 = batch@.take(i as int);
            let t1 = batch@.take(i + 1);
            assert forall|k: u32| consumers(t1).contains(k) <==> (consumers(t0).contains(k) || k
                == id) by {
                if consumers(t0).contains(k) {
                    let j = choose|j: int| 0 <= j < t0.len() && (#[trigger] t0[j]).to() == k;
                    assert(t1[j].to() == k);
                }
                assert(t1[i as int].to() == id);
                if consumers(t1).contains(k) {
                    let j = choose|j: int| 0 <= j < t1.len() && (#[trigger] t1[j]).to() == k;
                    if j < i {
                        assert(t0[j].to() == k);
                    }
                }
            }
            assert(seen@.dom() =~= consumers(t1));
        }
        i = i + 1;
    }
    assert(batch@.take(i as int) =~= batch@);
    sorted_keys32(&seen)
}

/// The commands of one consumer.
fn select<C: Answer>(batch: &Vec<C>, id: u32) -> (r: Vec<C>)
    ensures
        r@ == for_consumer(batch@, id),
{
    let mut out: Vec<C> = Vec::new();
    let mut i: usize = 0;
    proof {
        reveal(Seq::filter);
    }
    assert(for_consumer(batch@.take(0), id) =~= Seq::empty());
    while i < batch.len()
        invariant
            i <= batch@.len(),
            out@ == for_consumer(batch@.take(i as int), id),
        decreases batch@.len() - i,
    {
        proof {
            reveal(Seq::filter);
            assert(batch@.take(i + 1).drop_last() =~= batch@.take(i as int));
            assert(batch@.take(i + 1).last() == batch@[i as int]);
        }
        if batch[i].consumer() == id {
            out.push(batch[i]);
        }
        i = i + 1;
    }
    assert(batch@.take(i as int) =~= batch@);
    out
}

/// The frames of a round: one per consumer, by ascending consumer id, each
/// with a number of its own.
pub fn answer_frames<C: Answer>(batch: &Vec<C>, seqs: &mut SeqAllocator) -> (r: Vec<
    AnswerFrame<C>,
>)
    ensures
        ({
            let ids = listing32(consumers(batch@));
            &&& lists32(ids, consumers(batch@))
            &&& r@.len() == ids.len()
            &&& forall|i: int|
                0 <= i < ids.len() ==> frames_answers(
                    #[trigger] r@[i],
                    counter_after(old(seqs).next, i as nat),
                    ids[i],
                    for_consumer(batch@, ids[i]),
                )
            &&& final(seqs).next == counter_after(old(seqs).next, ids.len())
        }),
{
    let ids = consumer_ids(batch);
    proof {
        listing32_of(ids@, consumers(batch@));
    }
    let ghost start = seqs.next;
    let mut out: Vec<AnswerFrame<C>> = Vec::new();
    let mut k: usize = 0;
    while k < ids.len()
        invariant
            k <= ids@.len(),
            out@.len() == k,
            seqs.next == counter_after(start, k as nat),
            forall|i: int|
                0 <= i < k ==> frames_answers(
                    #[trigger] out@[i],
                    counter_after(start, i as nat),
                    ids@[i],
                    for_consumer(batch@, ids@[i]),
                ),
        decreases ids@.len() - k,
    {
        let number: u64 = seqs.next();
        let cmds = select(batch, ids[k]);
        let f = if cmds.len() == 1 && cmds[0].is_plain() {
            assert(cmds@ =~= seq![cmds@[0]]);
            AnswerFrame::Single { number, cmd: cmds[0] }
        } else {
            AnswerFrame::Many { number, consumer_id: ids[k], cmds }
        };
        out.push(f);
        k = k + 1;
    }
    out
}

// ── laws of a round ────────────────────────────────────────────────────────
/// Commands that a list of consumers gets, all together.
pub open spec fn handed_out<C: Answer>(batch: Seq<C>, ids: Seq<u32>) -> nat
    decreases ids.len(),
{
    if ids.len() == 0 {
        0
    } else {
        handed_out(batch, ids.drop_last()) + for_consumer(batch, ids.last()).len()
    }
}

proof fn handed_out_grows<C: Answer>(batch: Seq<C>, c: C, ids: Seq<u32>)
    requires
        ascending32(ids),
    ensures
        handed_out(batch.push(c), ids) == handed_out(batch, ids) + if ids.contains(c.to()) {
            1nat
        } else {
            0nat
        },
    decreases ids.len(),
{
    reveal(Seq::filter);
    if ids.len() > 0 {
        let head = ids.drop_last();
        let id = ids.last();
        assert(batch.push(c).drop_last() =~= batch);
        handed_out_grows(batch, c, head);
        if id == c.to() {
            assert(ids.contains(c.to()));
            if head.contains(id) {
                let j = choose|j: int| 0 <= j < head.len() && head[j] == id;
                assert(ids[j] < ids[ids.len() - 1]);
            }
        } else {
            if ids.contains(c.to()) {
                let j = choose|j: int| 0 <= j < ids.len() && ids[j] == c.to();
                assert(head[j] == c.to());
            }
            if head.contains(c.to()) {
                let j = choose|j: int| 0 <= j < head.len() && head[j] == c.to();
                assert(ids[j] == c.to());
            }
        }
    }
}

proof fn handed_out_total<C: Answer>(batch: Seq<C>, ids: Seq<u32>)
    requires
        ascending32(ids),
        forall|i: int| 0 <= i < batch.len() ==> ids.contains((#[trigger] batch[i]).to()),
    ensures
        handed_out(batch, ids) == batch.len(),
    decreases batch.len(),
{
    if batch.len() == 0 {
        empty_batch(batch, ids);
    } else {
        let b0 = batch.drop_last();
        assert forall|i: int| 0 <= i < b0.len() implies ids.contains((#[trigger] b0[i]).to()) by {
            assert(b0[i] == batch[i]);
        }
        handed_out_total(b0, ids);
        handed_out_grows(b0, batch.last(), ids);
        assert(b0.push(batch.last()) =~= batch);
        assert(ids.contains(batch[batch.len() - 1].to()));
    }
}

proof fn empty_batch<C: Answer>(batch: Seq<C>, ids: Seq<u32>)
    requires
        batch.len() == 0,
    ensures
        handed_out(batch, ids) == 0,
    decreases ids.len(),
{
    reveal(Seq::filter);
    if ids.len() > 0 {
        empty_batch(batch, ids.drop_last());
    }
}

/// Every command of a round goes out exactly once: the frames of the
/// consumers together hold as many commands as came in, and a command is in
/// the frame of its own consumer and in no other.
pub proof fn every_answer_goes_out<C: Answer>(batch: Seq<C>, ids: Seq<u32>)
    requires
        lists32(ids, consumers(batch)),
    ensures
        handed_out(batch, ids) == batch.len(),
        forall|c: C, id: u32| #[trigger]
            for_consumer(batch, id).contains(c) <==> (batch.contains(c) && c.to() == id),
{
    assert forall|i: int| 0 <= i < batch.len() implies ids.contains((#[trigger] batch[i]).to()) by {
        assert(consumers(batch).contains(batch[i].to()));
        assert(ids.to_set().contains(batch[i].to()));
    }
    handed_out_total(batch, ids);
    assert forall|c: C, id: u32| #[trigger] for_consumer(batch, id).contains(c) <==> (
    batch.contains(c) && c.to() == id) by {
        let pred = |x: C| x.to() == id;
        if for_consumer(batch, id).contains(c) {
            let j = choose|j: int|
                0 <= j < for_consumer(batch, id).len() && for_consumer(batch, id)[j] == c;
            batch.lemma_filter_pred(pred, j);
            batch.lemma_filter_contains_rev(pred, c);
        }
        if batch.contains(c) && c.to() == id {
            let i = choose|i: int| 0 <= i < batch.len() && batch[i] == c;
            batch.lemma_filter_contains(pred, i);
        }
    }
}

// ── the sweep of deferred acks ─────────────────────────────────────────────
/// Deferred acks of one consumer, to be sent.
#[derive(Debug)]
pub struct AckBatch {
    pub number: u64,
    pub consumer_id: u32,
    pub generation: u32,
    pub seqs: Vec<u64>,
}

/// An active consumer has a slot that holds something.
proof fn active_has_slot(slots: Seq<Option<crate::ackrel::pending::ConsumerPending>>, k: int)
    requires
        0 <= k < active(slots).len(),
        slots.len() <= u32::MAX + 1,
    ensures
        ({
            let (id, generation) = active(slots)[k];
            &&& (id as int) < slots.len()
            &&& slots[id as int] matches Some(p)
            &&& p.count > 0
            &&& p.generation == generation
        }),
    decreases slots.len(),
{
    if slots.len() > 0 {
        let head = slots.drop_last();
        if k < active(head).len() {
            active_has_slot(head, k);
        }
    }
}

/// What one sweep sends: the smallest deferred acks of every consumer that
/// has any. They stay deferred until the broker confirms them.
pub fn sweep_frames(relay: &AckRelay, seqs: &mut SeqAllocator) -> (r: Vec<AckBatch>)
    requires
        relay.wf(),
    ensures
        ({
            let list = active(relay.per_consumer@);
            &&& r@.len() == list.len()
            &&& forall|i: int|
                0 <= i < list.len() ==> {
                    &&& (#[trigger] r@[i]).number == counter_after(old(seqs).next, i as nat)
                    &&& r@[i].consumer_id == list[i].0
                    &&& r@[i].generation == list[i].1
                    &&& r@[i].seqs@ == smallest(relay.set(list[i].0), SWEEP_MAX as nat)
                    &&& r@[i].seqs@.len() > 0
                    &&& r@[i].seqs@.len() == if relay.set(list[i].0).len() < 1000 {
                        relay.set(list[i].0).len()
                    } else {
                        1000
                    }
                }
            &&& final(seqs).next == counter_after(old(seqs).next, list.len())
        }),
{
    let list = relay.active_consumers();
    let ghost start = seqs.next;
    let mut out: Vec<AckBatch> = Vec::new();
    let mut k: usize = 0;
    while k < list.len()
        invariant
            k <= list@.len(),
            out@.len() == k,
            list@ == active(relay.per_consumer@),
            relay.wf(),
            seqs.next == counter_after(start, k as nat),
            forall|i: int|
                0 <= i < k ==> {
                    &&& (#[trigger] out@[i]).number == counter_after(start, i as nat)
                    &&& out@[i].consumer_id == list@[i].0
                    &&& out@[i].generation == list@[i].1
                    &&& out@[i].seqs@ == smallest(relay.set(list@[i].0), SWEEP_MAX as nat)
                    &&& out@[i].seqs@.len() > 0
                    &&& out@[i].seqs@.len() == if relay.set(list@[i].0).len() < 1000 {
                        relay.set(list@[i].0).len()
                    } else {
                        1000
                    }
                },
        decreases list@.len() - k,
    {
        let (consumer_id, generation) = list[k];
        let pending = relay.drain_ascending(consumer_id, SWEEP_MAX);
        proof {
            active_has_slot(relay.per_consumer@, k as int);
            assert(relay.slot(consumer_id) is Some);
            assert(relay.set(consumer_id).len() > 0);
        }
        let number: u64 = seqs.next();
        out.push(AckBatch { number, consumer_id, generation, seqs: pending });
        k = k + 1;
    }
    out
}

/// Counts sweeps between two checks for expired acks.
#[derive(Debug)]
pub struct ExpireClock {
    pub ticks: u32,
}

impl ExpireClock {
    pub open spec fn wf(&self) -> bool {
        self.ticks < EXPIRE_EVERY_TICKS
    }

    pub fn new() -> (r: ExpireClock)
        ensures
            r.wf(),
            r.ticks == 0,
    {
        ExpireClock { ticks: 0 }
    }

    /// One sweep has passed. Returns whether a check is due, and starts over
    /// then.
    pub fn tick(&mut self) -> (due: bool)
        requires
            old(self).wf(),
        ensures
            final(self).wf(),
            due == (old(self).ticks + 1 == EXPIRE_EVERY_TICKS),
            due <==> old(self).ticks + 1 == 600,
            final(self).ticks == if due {
                0
            } else {
                old(self).ticks + 1
            },
    {
        self.ticks = self.ticks + 1;
        if self.ticks >= EXPIRE_EVERY_TICKS {
            self.ticks = 0;
            true
        } else {
            false
        }
    }
}

/// Drop the deferred acks of every consumer whose oldest one has reached the
/// age limit, and count them. Returns how many (modulo 2^32).
pub fn expire_deferred(
    relay: &mut AckRelay,
    metrics: &mut ClientMetrics,
    now_ms: u64,
    ttl_ms: u64,
) -> (expired: u32)
    requires
        old(relay).wf(),
    ensures
        final(relay).wf(),
        now_ms < ttl_ms ==> expired == 0 && *final(relay) == *old(relay),
        now_ms >= ttl_ms ==> {
            let cutoff = (now_ms - ttl_ms) as u64;
            &&& final(relay).per_consumer@.len() == old(relay).per_consumer@.len()
            &&& forall|i: int|
                0 <= i < old(relay).per_consumer@.len() ==> expired_slot(
                    old(relay).per_consumer@[i],
                    cutoff,
                    #[trigger] final(relay).per_consumer@[i],
                )
            &&& expired as nat == expired_total(old(relay).per_consumer@, cutoff) % two32()
        },
        *final(metrics) == (ClientMetrics {
            acks_expired: old(metrics).acks_expired.wrapping_add(expired as u64),
            ..*old(metrics)
        }),
{
    if now_ms < ttl_ms {
        return 0;
    }
    let cutoff: u64 = now_ms - ttl_ms;
    let expired: u32 = relay.expire(cutoff, now_ms);
    metrics.acks_expired = metrics.acks_expired.wrapping_add(expired as u64);
    expired
}

// ── laws of the frames ─────────────────────────────────────────────────────
/// The commands that a frame carries.
pub open spec fn commands_in<C>(f: AnswerFrame<C>) -> Seq<C> {
    match f {
        AnswerFrame::Single { cmd, .. } => seq![cmd],
        AnswerFrame::Many { cmds, .. } => cmds@,
    }
}

/// The number of a frame.
pub open spec fn number_of<C>(f: AnswerFrame<C>) -> u64 {
    match f {
        AnswerFrame::Single { number, .. } => number,
        AnswerFrame::Many { number, .. } => number,
    }
}

/// The frame of a consumer carries all of its commands, in order and nothing
/// else, under the number it was given; a list says whose it is.
pub proof fn frames_carry_their_commands<C: Answer>(
    f: AnswerFrame<C>,
    number: u64,
    id: u32,
    cmds: Seq<C>,
)
    requires
        frames_answers(f, number, id, cmds),
    ensures
        commands_in(f) == cmds,
        number_of(f) == number,
        f matches AnswerFrame::Many { consumer_id, .. } ==> consumer_id == id,
{
}

/// The delay of a nack is never lost: only one without a delay travels in the
/// frame that has no room for it.
pub proof fn delays_are_carried(f: AnswerFrame<NackCmd>, number: u64, id: u32, cmds: Seq<NackCmd>)
    requires
        frames_answers(f, number, id, cmds),
    ensures
        f is Single ==> cmds.len() == 1 && cmds[0].delay_ms == 0,
{
}

/// The commands of a round keep their order within each consumer.
pub proof fn order_is_kept<C: Answer>(batch: Seq<C>, c: C, id: u32)
    ensures
        for_consumer(batch.push(c), id) == if c.to() == id {
            for_consumer(batch, id).push(c)
        } else {
            for_consumer(batch, id)
        },
{
    reveal(Seq::filter);
    assert(batch.push(c).drop_last() =~= batch);
}

/// A lone ack travels in a frame of its own, several as a list. A lone nack
/// does so where it asks for no delay.
pub proof fn lone_answers_travel_alone(
    a: AnswerFrame<AckCmd>,
    acks: Seq<AckCmd>,
    n: AnswerFrame<NackCmd>,
    nacks: Seq<NackCmd>,
    number: u64,
    id: u32,
)
    requires
        frames_answers(a, number, id, acks),
        frames_answers(n, number, id, nacks),
    ensures
        a is Single <==> acks.len() == 1,
        n is Single <==> nacks.len() == 1 && nacks[0].delay_ms == 0,
{
}

} // verus!
