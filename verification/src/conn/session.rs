//! The life of a connection: greet, replay, run until it drops, try again.

use crate::ackrel::relay::{active, counts_fit, whoever_waits_is_active, AckRelay};
use crate::config::ReconnectPolicy;
use crate::conn::reconnect::Backoff;
use crate::ordered::{ascending32, listing32, listing32_exists};
use crate::state::seq::{counter_after, SeqAllocator};
use crate::state::subscriptions::{slotted_consumers_are_listed, with_dedup, Subscriptions};
use crate::transport::ack_state::generation_in;
use vstd::prelude::*;

verus! {

/// The bytes that open every connection, the first one and each one after:
/// the greeting, and the login where there is a token. They go out together;
/// the broker answers only to refuse.
pub fn handshake(hello: &[u8], auth: Option<Vec<u8>>) -> (r: Vec<u8>)
    ensures
        r@ == match auth {
            Some(a) => hello@ + a@,
            None => hello@,
        },
{
    let mut out: Vec<u8> = Vec::new();
    out.extend_from_slice(hello);
    assert(out@ =~= hello@);
    match auth {
        Some(a) => {
            out.extend_from_slice(a.as_slice());
            assert(out@ =~= hello@ + a@);
        },
        None => {},
    }
    out
}

// ── asking for the broker's view of acks ───────────────────────────────────
/// A request for the broker's cursor of one consumer.
#[derive(Debug, Clone, Copy, PartialEq, Eq, Structural)]
pub struct AckStateReq {
    pub number: u64,
    pub consumer_id: u32,
    pub generation: u32,
}

/// A consumer is among those listed.
pub open spec fn listed(list: Seq<(u32, u32)>, id: u32) -> bool {
    exists|i: int| 0 <= i < list.len() && (#[trigger] list[i]).0 == id
}

/// The consumers of `ids` that are not listed, with the generations that the
/// relay has of them.
pub open spec fn unlisted(list: Seq<(u32, u32)>, ids: Seq<u32>, relay: AckRelay) -> Seq<(u32, u32)>
    decreases ids.len(),
{
    if ids.len() == 0 {
        Seq::empty()
    } else {
        let before = unlisted(list, ids.drop_last(), relay);
        if listed(list, ids.last()) {
            before
        } else {
            before.push((ids.last(), generation_in(relay, ids.last())))
        }
    }
}

/// The consumers to ask about after a connect: those with deferred acks, then
/// those with a delivered-set slot and none.
pub open spec fn to_ask(relay: AckRelay, subs: Subscriptions) -> Seq<(u32, u32)> {
    let list = active(relay.per_consumer@);
    list + unlisted(
        list,
        with_dedup(subs.by_consumer@, listing32(subs.by_consumer@.dom())),
        relay,
    )
}

fn is_listed(list: &Vec<(u32, u32)>, id: u32) -> (r: bool)
    ensures
        r == listed(list@, id),
{
    let mut i: usize = 0;
    while i < list.len()
        invariant
            i <= list@.len(),
            forall|j: int| 0 <= j < i ==> (#[trigger] list@[j]).0 != id,
        decreases list@.len() - i,
    {
        if list[i].0 == id {
            assert(list@[i as int].0 == id);
            return true;
        }
        i = i + 1;
    }
    false
}

/// The requests to send after every connect, each with a number of its own.
/// The answers drop what a session that died has left unconfirmed.
pub fn ack_state_reqs(relay: &AckRelay, subs: &Subscriptions, seqs: &mut SeqAllocator) -> (r: Vec<
    AckStateReq,
>)
    requires
        relay.wf(),
    ensures
        ({
            let list = to_ask(*relay, *subs);
            &&& r@.len() == list.len()
            &&& forall|i: int|
                0 <= i < list.len() ==> #[trigger] r@[i] == (AckStateReq {
                    number: counter_after(old(seqs).next, i as nat),
                    consumer_id: list[i].0,
                    generation: list[i].1,
                })
            &&& final(seqs).next == counter_after(old(seqs).next, list.len())
        }),
{
    let consumers = relay.active_consumers();
    let slotted = subs.dedup_consumers();
    let mut list: Vec<(u32, u32)> = Vec::new();
    let mut i: usize = 0;
    while i < consumers.len()
        invariant
            i <= consumers@.len(),
            list@ == consumers@.take(i as int),
        decreases consumers@.len() - i,
    {
        list.push(consumers[i]);
        i = i + 1;
        assert(list@ =~= consumers@.take(i as int));
    }
    assert(list@ =~= consumers@ + unlisted(consumers@, slotted@.take(0), *relay));
    let mut k: usize = 0;
    while k < slotted.len()
        invariant
            k <= slotted@.len(),
            list@ == consumers@ + unlisted(consumers@, slotted@.take(k as int), *relay),
        decreases slotted@.len() - k,
    {
        let id: u32 = slotted[k];
        proof {
            assert(slotted@.take(k + 1).drop_last() =~= slotted@.take(k as int));
        }
        if !is_listed(&consumers, id) {
            list.push((id, relay.generation_of(id)));
        }
        k = k + 1;
        assert(list@ =~= consumers@ + unlisted(consumers@, slotted@.take(k as int), *relay));
    }
    assert(slotted@.take(k as int) =~= slotted@);
    let ghost start = seqs.next;
    let mut out: Vec<AckStateReq> = Vec::new();
    let mut n: usize = 0;
    while n < list.len()
        invariant
            n <= list@.len(),
            out@.len() == n,
            seqs.next == counter_after(start, n as nat),
            forall|j: int|
                0 <= j < n ==> #[trigger] out@[j] == (AckStateReq {
                    number: counter_after(start, j as nat),
                    consumer_id: list@[j].0,
                    generation: list@[j].1,
                }),
        decreases list@.len() - n,
    {
        let number: u64 = seqs.next();
        out.push(AckStateReq { number, consumer_id: list[n].0, generation: list[n].1 });
        n = n + 1;
    }
    out
}

/// Every slotted consumer is asked about.
proof fn unlisted_covers(list: Seq<(u32, u32)>, ids: Seq<u32>, relay: AckRelay, k: int)
    requires
        0 <= k < ids.len(),
    ensures
        listed(list, ids[k]) || listed(unlisted(list, ids, relay), ids[k]),
    decreases ids.len(),
{
    let head = ids.drop_last();
    let before = unlisted(list, head, relay);
    let now = unlisted(list, ids, relay);
    if k == ids.len() - 1 {
        if !listed(list, ids[k]) {
            assert(now[before.len() as int].0 == ids[k]);
        }
    } else {
        unlisted_covers(list, head, relay, k);
        assert(head[k] == ids[k]);
        if listed(before, ids[k]) {
            let j = choose|j: int| 0 <= j < before.len() && (#[trigger] before[j]).0 == ids[k];
            assert(now[j].0 == ids[k]);
        }
    }
}

proof fn with_dedup_covers(
    m: Map<u32, crate::state::subscriptions::Consumer>,
    ids: Seq<u32>,
    k: int,
)
    requires
        0 <= k < ids.len(),
        m[ids[k]].dedup is Some,
    ensures
        with_dedup(m, ids).contains(ids[k]),
    decreases ids.len(),
{
    let head = ids.drop_last();
    let before = with_dedup(m, head);
    let now = with_dedup(m, ids);
    if k == ids.len() - 1 {
        assert(now[before.len() as int] == ids[k]);
    } else {
        with_dedup_covers(m, head, k);
        assert(head[k] == ids[k]);
        let j = choose|j: int| 0 <= j < before.len() && before[j] == ids[k];
        assert(now[j] == ids[k]);
    }
}

/// After a connect the broker is asked about every consumer that has a
/// delivered-set slot.
pub proof fn slotted_consumers_are_asked(relay: AckRelay, subs: Subscriptions, id: u32)
    requires
        subs.by_consumer@.dom().finite(),
        subs.by_consumer@.contains_key(id),
        subs.by_consumer@[id].dedup is Some,
    ensures
        listed(to_ask(relay, subs), id),
{
    let m = subs.by_consumer@;
    let all = listing32(m.dom());
    listing32_exists(m.dom());
    assert(all.to_set().contains(id));
    let k = choose|k: int| 0 <= k < all.len() && all[k] == id;
    with_dedup_covers(m, all, k);
    let ids = with_dedup(m, all);
    let j = choose|j: int| 0 <= j < ids.len() && ids[j] == id;
    let list = active(relay.per_consumer@);
    unlisted_covers(list, ids, relay, j);
    let rest = unlisted(list, ids, relay);
    if listed(list, id) {
        let i = choose|i: int| 0 <= i < list.len() && (#[trigger] list[i]).0 == id;
        assert(to_ask(relay, subs)[i].0 == id);
    } else {
        let i = choose|i: int| 0 <= i < rest.len() && (#[trigger] rest[i]).0 == id;
        assert(to_ask(relay, subs)[list.len() + i].0 == id);
    }
}

// ── the reconnect loop ─────────────────────────────────────────────────────
/// What the loop is waiting for.
#[derive(Debug, Clone, Copy, PartialEq, Eq, Structural)]
pub enum Phase {
    /// The end of the session.
    Running,
    /// The end of a delay.
    Waiting,
    /// A new connection.
    Dialing,
    /// The handshake to be written.
    Greeting,
    /// Nothing any more.
    Stopped,
}

/// What has happened.
#[derive(Debug, Clone, Copy, PartialEq, Eq, Structural)]
pub enum ConnEvent {
    /// The session is over; whether the client has been closed.
    SessionEnded { cancelled: bool },
    /// The delay is over.
    Slept,
    /// The client has been closed during a delay.
    Cancelled,
    Dialed,
    DialFailed,
    Greeted,
    GreetFailed,
}

/// What to do next.
#[derive(Debug, Clone, Copy, PartialEq, Eq, Structural)]
pub enum ConnAction {
    /// The event does not belong to this phase.
    Nothing,
    /// Give up.
    Stop,
    /// Wait this long, in nanoseconds.
    Sleep(u64),
    Dial,
    /// Write the handshake.
    Greet,
    /// Replay subscriptions, ask about acks, register cron jobs again, and
    /// run the session.
    Run,
}

/// The reconnect loop.
#[derive(Debug)]
pub struct Connector {
    pub phase: Phase,
    pub backoff: Backoff,
}

impl Connector {
    /// No attempt is left, or another can be counted and timed.
    pub open spec fn wf(&self) -> bool {
        self.backoff.can_go_on()
    }

    /// The next attempt follows after a delay, or none is left.
    pub open spec fn retries(&self, after: Connector, action: ConnAction) -> bool {
        if self.backoff.exhausted() {
            &&& action is Stop
            &&& after.phase is Stopped
            &&& after.backoff == self.backoff
        } else {
            &&& action matches ConnAction::Sleep(d)
            &&& after.phase is Waiting
            &&& after.backoff == self.backoff.waited(d)
            &&& d <= self.backoff.cap
            &&& d >= self.backoff.base || d == self.backoff.cap
            &&& d < self.backoff.ceiling()
        }
    }

    /// The phase changes, the backoff stays.
    pub open spec fn moves(&self, after: Connector, phase: Phase) -> bool {
        after.phase == phase && after.backoff == self.backoff
    }

    /// What one event leads to.
    pub open spec fn leads_to(&self, ev: ConnEvent, after: Connector, action: ConnAction) -> bool {
        match (self.phase, ev) {
            (Phase::Running, ConnEvent::SessionEnded { cancelled }) => if cancelled {
                action is Stop && self.moves(after, Phase::Stopped)
            } else {
                self.retries(after, action)
            },
            (Phase::Waiting, ConnEvent::Slept) => action is Dial && self.moves(
                after,
                Phase::Dialing,
            ),
            (Phase::Waiting, ConnEvent::Cancelled) => action is Stop && self.moves(
                after,
                Phase::Stopped,
            ),
            (Phase::Dialing, ConnEvent::Dialed) => action is Greet && self.moves(
                after,
                Phase::Greeting,
            ),
            (Phase::Dialing, ConnEvent::DialFailed) => self.retries(after, action),
            (Phase::Greeting, ConnEvent::Greeted) => {
                &&& action is Run
                &&& after.phase is Running
                &&& after.backoff == (Backoff { prev: self.backoff.base, attempts: 0, ..self.backoff
                })
            },
            (Phase::Greeting, ConnEvent::GreetFailed) => self.retries(after, action),
            _ => action is Nothing && after == *self,
        }
    }

    /// The loop as it starts: the first connection stands.
    pub fn new(policy: &ReconnectPolicy) -> (r: Connector)
        ensures
            r.phase is Running,
            r.backoff == (Backoff {
                base: policy.base,
                cap: policy.cap,
                max: policy.max_attempts,
                prev: policy.base,
                attempts: 0,
            }),
    {
        Connector { phase: Phase::Running, backoff: Backoff::new(policy) }
    }

    fn retry(&mut self) -> (action: ConnAction)
        requires
            old(self).wf(),
        ensures
            old(self).retries(*final(self), action),
    {
        match self.backoff.next() {
            Some(d) => {
                self.phase = Phase::Waiting;
                ConnAction::Sleep(d)
            },
            None => {
                self.phase = Phase::Stopped;
                ConnAction::Stop
            },
        }
    }

    /// Take in an event.
    pub fn step(&mut self, ev: ConnEvent) -> (action: ConnAction)
        requires
            old(self).wf(),
        ensures
            old(self).leads_to(ev, *final(self), action),
    {
        match (self.phase, ev) {
            (Phase::Running, ConnEvent::SessionEnded { cancelled }) => {
                if cancelled {
                    self.phase = Phase::Stopped;
                    ConnAction::Stop
                } else {
                    self.retry()
                }
            },
            (Phase::Waiting, ConnEvent::Slept) => {
                self.phase = Phase::Dialing;
                ConnAction::Dial
            },
            (Phase::Waiting, ConnEvent::Cancelled) => {
                self.phase = Phase::Stopped;
                ConnAction::Stop
            },
            (Phase::Dialing, ConnEvent::Dialed) => {
                self.phase = Phase::Greeting;
                ConnAction::Greet
            },
            (Phase::Dialing, ConnEvent::DialFailed) => self.retry(),
            (Phase::Greeting, ConnEvent::Greeted) => {
                self.phase = Phase::Running;
                self.backoff.reset();
                ConnAction::Run
            },
            (Phase::Greeting, ConnEvent::GreetFailed) => self.retry(),
            _ => ConnAction::Nothing,
        }
    }
}

/// A session runs only behind a handshake that was written, so no reconnect
/// skips the login, and from then on the delays start over.
pub proof fn sessions_follow_handshakes(
    c: Connector,
    ev: ConnEvent,
    after: Connector,
    action: ConnAction,
)
    requires
        c.leads_to(ev, after, action),
        action is Run || (after.phase is Running && !(c.phase is Running)),
    ensures
        c.phase is Greeting,
        ev is Greeted,
        action is Run,
        after.backoff.attempts == 0,
        after.backoff.prev == after.backoff.base,
{
}

/// A loop that has stopped stays stopped, and a client that was closed dials
/// no more.
pub proof fn stopped_for_good(c: Connector, ev: ConnEvent, after: Connector, action: ConnAction)
    requires
        c.leads_to(ev, after, action),
        c.phase is Stopped || ev is Cancelled || ev == (ConnEvent::SessionEnded {
            cancelled: true,
        }),
    ensures
        !(action is Dial),
        !(action is Sleep),
        !(action is Run),
        c.phase is Stopped ==> after == c,
        c.phase is Running && ev is SessionEnded ==> after.phase is Stopped,
        c.phase is Waiting && ev is Cancelled ==> after.phase is Stopped,
        (c.phase is Running && ev is SessionEnded) || (c.phase is Waiting && ev is Cancelled)
            ==> action is Stop,
{
}

// ── laws ───────────────────────────────────────────────────────────────────
proof fn unlisted_members(list: Seq<(u32, u32)>, ids: Seq<u32>, relay: AckRelay)
    requires
        ascending32(ids),
    ensures
        forall|i: int|
            0 <= i < unlisted(list, ids, relay).len() ==> {
                let (id, generation) = #[trigger] unlisted(list, ids, relay)[i];
                &&& ids.contains(id)
                &&& !listed(list, id)
                &&& generation == generation_in(relay, id)
            },
        forall|i: int, j: int|
            #![trigger unlisted(list, ids, relay)[i], unlisted(list, ids, relay)[j]]
            0 <= i < j < unlisted(list, ids, relay).len() ==> unlisted(list, ids, relay)[i].0
                < unlisted(list, ids, relay)[j].0,
    decreases ids.len(),
{
    if ids.len() > 0 {
        let t = ids.drop_last();
        let z = ids.last();
        unlisted_members(list, t, relay);
        let a = unlisted(list, t, relay);
        let b = unlisted(list, ids, relay);
        assert forall|i: int| 0 <= i < a.len() implies (#[trigger] a[i]).0 < z && ids.contains(
            a[i].0,
        ) by {
            let id = a[i].0;
            assert(t.contains(id));
            let k = choose|k: int| 0 <= k < t.len() && t[k] == id;
            assert(ids[k] == id);
            assert(ids[k] < ids[ids.len() - 1]);
        }
        assert(ids[ids.len() - 1] == z);
        assert forall|i: int| 0 <= i < b.len() implies {
            let (id, generation) = #[trigger] b[i];
            &&& ids.contains(id)
            &&& !listed(list, id)
            &&& generation == generation_in(relay, id)
        } by {
            if i < a.len() {
                assert(b[i] == a[i]);
            }
        }
        assert forall|i: int, j: int|
            #![trigger b[i], b[j]]
            0 <= i < j < b.len() implies b[i].0 < b[j].0 by {
            assert(b[i] == a[i]);
            if j < a.len() {
                assert(b[j] == a[j]);
            }
        }
    }
}

/// After a connect the broker is asked about exactly the consumers that have
/// deferred acks or a delivered-set slot, each once, with the generation that
/// is known of it.
pub proof fn each_is_asked_once(relay: AckRelay, subs: Subscriptions, id: u32)
    requires
        relay.wf(),
        counts_fit(relay),
    ensures
        listed(to_ask(relay, subs), id) <==> relay.set(id).len() > 0 || (
        subs.by_consumer@.contains_key(id) && subs.by_consumer@[id].dedup is Some),
        forall|i: int|
            0 <= i < to_ask(relay, subs).len() ==> (#[trigger] to_ask(relay, subs)[i]).1
                == match relay.slot(to_ask(relay, subs)[i].0) {
                Some(p) => p.generation,
                None => 0,
            },
        forall|i: int, j: int|
            #![trigger to_ask(relay, subs)[i], to_ask(relay, subs)[j]]
            0 <= i < j < to_ask(relay, subs).len() ==> to_ask(relay, subs)[i].0 != to_ask(
                relay,
                subs,
            )[j].0,
{
    let m = subs.by_consumer@;
    let list = active(relay.per_consumer@);
    let ids = with_dedup(m, listing32(m.dom()));
    let rest = unlisted(list, ids, relay);
    let all = to_ask(relay, subs);
    slotted_consumers_are_listed(subs, id);
    unlisted_members(list, ids, relay);
    let known = match relay.slot(id) {
        Some(p) => p.generation,
        None => 0,
    };
    whoever_waits_is_active(relay, id, known);
    if relay.set(id).len() > 0 {
        let i = choose|i: int| 0 <= i < list.len() && list[i] == (id, known);
        assert(all[i].0 == id);
    }
    if m.contains_key(id) && m[id].dedup is Some {
        slotted_consumers_are_asked(relay, subs, id);
    }
    if listed(all, id) {
        let i = choose|i: int| 0 <= i < all.len() && (#[trigger] all[i]).0 == id;
        if i < list.len() {
            whoever_waits_is_active(relay, id, list[i].1);
            assert(list.contains((id, list[i].1)));
        } else {
            assert(all[i] == rest[i - list.len()]);
        }
    }
    assert forall|i: int| 0 <= i < all.len() implies (#[trigger] all[i]).1 == match relay.slot(
        all[i].0,
    ) {
        Some(p) => p.generation,
        None => 0,
    } by {
        if i < list.len() {
            assert(list[i] == all[i]);
            whoever_waits_is_active(relay, list[i].0, list[i].1);
            assert(list.contains((list[i].0, list[i].1)));
        } else {
            assert(all[i] == rest[i - list.len()]);
        }
    }
    assert forall|i: int, j: int|
        #![trigger all[i], all[j]]
        0 <= i < j < all.len() implies all[i].0 != all[j].0 by {
        if j < list.len() {
            assert(all[i] == list[i] && all[j] == list[j]);
        } else if i < list.len() {
            assert(all[j] == rest[j - list.len()]);
            if all[i].0 == all[j].0 {
                assert(list[i].0 == all[j].0);
            }
        } else {
            assert(all[i] == rest[i - list.len()] && all[j] == rest[j - list.len()]);
        }
    }
}

/// A connection that is lost is made again: after a delay the broker is dialed
/// and greeted, and the next session runs, as long as an attempt is left.
pub proof fn lost_connections_come_back(
    c0: Connector,
    c1: Connector,
    a1: ConnAction,
    c2: Connector,
    a2: ConnAction,
    c3: Connector,
    a3: ConnAction,
    c4: Connector,
    a4: ConnAction,
)
    requires
        c0.phase is Running,
        c0.backoff.max is None || c0.backoff.attempts < c0.backoff.max->0,
        c0.leads_to(ConnEvent::SessionEnded { cancelled: false }, c1, a1),
        c1.leads_to(ConnEvent::Slept, c2, a2),
        c2.leads_to(ConnEvent::Dialed, c3, a3),
        c3.leads_to(ConnEvent::Greeted, c4, a4),
    ensures
        a1 matches ConnAction::Sleep(d) && d <= c0.backoff.cap && (d >= c0.backoff.base || d
            == c0.backoff.cap),
        a2 is Dial,
        a3 is Greet,
        a4 is Run,
        c4.phase is Running,
        c4.backoff.base == c0.backoff.base && c4.backoff.cap == c0.backoff.cap && c4.backoff.max
            == c0.backoff.max,
{
}

/// An attempt that fails, at the dial or at the greeting, is followed by
/// another one after a delay, and counted. The loop gives up where the number
/// of attempts is bounded and reached, and only there.
pub proof fn failed_attempts_are_counted(
    c: Connector,
    ev: ConnEvent,
    after: Connector,
    action: ConnAction,
)
    requires
        c.leads_to(ev, after, action),
        c.backoff.attempts < u32::MAX,
        (c.phase is Dialing && ev is DialFailed) || (c.phase is Greeting && ev is GreetFailed) || (
        c.phase is Running && ev == (ConnEvent::SessionEnded { cancelled: false })),
    ensures
        action is Stop <==> c.backoff.max is Some && c.backoff.attempts >= c.backoff.max->0,
        action is Stop <==> after.phase is Stopped,
        !(action is Stop) ==> {
            &&& action is Sleep
            &&& after.phase is Waiting
            &&& after.backoff.attempts == c.backoff.attempts + 1
            &&& after.backoff.max == c.backoff.max
            &&& after.backoff.base == c.backoff.base
            &&& after.backoff.cap == c.backoff.cap
            &&& after.backoff.prev == action->Sleep_0
            &&& action->Sleep_0 <= c.backoff.cap
            &&& action->Sleep_0 >= c.backoff.base || action->Sleep_0 == c.backoff.cap
            &&& action->Sleep_0 < c.backoff.prev * 3 || action->Sleep_0 <= c.backoff.base
        },
        action is Stop ==> after.backoff == c.backoff,
{
}

/// An event that does not belong to the phase does nothing and changes
/// nothing.
pub proof fn strays_change_nothing(
    c: Connector,
    ev: ConnEvent,
    after: Connector,
    action: ConnAction,
)
    requires
        c.leads_to(ev, after, action),
        !(c.phase is Running && ev is SessionEnded),
        !(c.phase is Waiting && (ev is Slept || ev is Cancelled)),
        !(c.phase is Dialing && (ev is Dialed || ev is DialFailed)),
        !(c.phase is Greeting && (ev is Greeted || ev is GreetFailed)),
    ensures
        action is Nothing,
        after == c,
{
}

} // verus!
