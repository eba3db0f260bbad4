//! Opening a subscription: resolve its delivered-set slot, register it before
//! the request goes out, and settle it when the reply is there.

use crate::ackrel::relay::AckRelay;
use crate::ackstore::store::{slot_resolved, Store};
use crate::conn::session::AckStateReq;
use crate::error::{ClientError, RequestResult};
use crate::metrics::ClientMetrics;
use crate::state::seq::{sub_id_at, SeqAllocator, SubIdAllocator};
use crate::state::subscriptions::{removed, Subscriptions};
use crate::transport::ack_state::generation_in;
use vstd::prelude::*;

verus! {

/// The numbers of a new subscription: its request's and its own. Each
/// subscription has one, so that several filtered subscriptions of a consumer
/// do not collapse onto one binding.
pub fn subscription_numbers(seqs: &mut SeqAllocator, sub_ids: &mut SubIdAllocator) -> (r: (
    u64,
    u32,
))
    ensures
        r.0 == old(seqs).next,
        r.1 == sub_id_at(old(sub_ids).next),
        r.1 != 0,
        final(seqs).next == old(seqs).next.wrapping_add(1),
        final(sub_ids).next == r.1.wrapping_add(1),
{
    let seq: u64 = seqs.next();
    let id: u32 = sub_ids.next();
    (seq, id)
}

/// The filters of a subscribe request. An empty filter is none: the
/// consumer's own applies.
pub fn request_filters(filter: &[u8]) -> (r: Vec<Vec<u8>>)
    ensures
        r@.len() == if filter@.len() == 0 {
            0nat
        } else {
            1nat
        },
        filter@.len() != 0 ==> r@[0]@ == filter@,
{
    let mut out: Vec<Vec<u8>> = Vec::new();
    if filter.len() != 0 {
        out.push(vstd::slice::slice_to_vec(filter));
    }
    out
}

/// The delivered-set slot of a subscription, by the durable names of its
/// stream and consumer. A slot that cannot be had means no dedup for this
/// subscription; it does not fail the subscription.
pub fn resolve_slot<S: Store>(
    store: &mut S,
    metrics: &mut ClientMetrics,
    stream: &str,
    consumer: &str,
    now: i64,
) -> (r: Option<u32>)
    requires
        old(store).table().wf(),
    ensures
        final(store).table().wf(),
        match r {
            Some(id) => {
                &&& slot_resolved(
                    old(store).is_closed(),
                    old(store).table(),
                    stream@,
                    consumer@,
                    now,
                    final(store).table(),
                    Ok(id),
                )
                &&& *final(metrics) == *old(metrics)
            },
            None => {
                &&& exists|e: crate::ackstore::store::StoreError| #[trigger]
                    slot_resolved(
                        old(store).is_closed(),
                        old(store).table(),
                        stream@,
                        consumer@,
                        now,
                        final(store).table(),
                        Err(e),
                    )
                &&& *final(metrics) == (ClientMetrics {
                    ackstore_errors: old(metrics).ackstore_errors.wrapping_add(1),
                    ..*old(metrics)
                })
            },
        },
{
    match store.slot(stream, consumer, now) {
        Ok(id) => Some(id),
        Err(e) => {
            metrics.ackstore_errors = metrics.ackstore_errors.wrapping_add(1);
            assert(slot_resolved(
                old(store).is_closed(),
                old(store).table(),
                stream@,
                consumer@,
                now,
                store.table(),
                Err(e),
            ));
            None
        },
    }
}

/// How a subscription was settled.
#[derive(Debug)]
pub enum Settled {
    /// It is open. Where it has a slot, the broker is asked for its cursor
    /// once, so that what a dead session has left unconfirmed is dropped.
    Open(Option<AckStateReq>),
    /// The request was never sent; the registration stays for a reconnect to
    /// replay.
    Unsent(ClientError),
    /// The broker refused, or the reply never came: the registration is gone.
    /// Holds the channels that have lost their subscription.
    Refused(ClientError, Vec<u64>),
}

/// Settle a subscription: `enqueued` tells whether the request went out, and
/// `reply` what came back.
pub fn settle(
    subs: &mut Subscriptions,
    relay: &AckRelay,
    seqs: &mut SeqAllocator,
    consumer_id: u32,
    sub_id: u32,
    has_slot: bool,
    enqueued: Result<(), ClientError>,
    reply: RequestResult,
) -> (r: Settled)
    requires
        old(subs).wf(),
    ensures
        final(subs).wf(),
        match (enqueued, reply) {
            (Err(e), _) => r == Settled::Unsent(e) && *final(subs) == *old(subs)
                && final(seqs).next == old(seqs).next,
            (Ok(_), Ok(_)) => {
                &&& *final(subs) == *old(subs)
                &&& r == Settled::Open(
                    if has_slot {
                        Some(
                            AckStateReq {
                                number: old(seqs).next,
                                consumer_id,
                                generation: generation_in(*relay, consumer_id),
                            },
                        )
                    } else {
                        None
                    },
                )
                &&& final(seqs).next == if has_slot {
                    old(seqs).next.wrapping_add(1)
                } else {
                    old(seqs).next
                }
            },
            (Ok(_), Err(e)) => {
                &&& r matches Settled::Refused(err, dropped)
                &&& err == e
                &&& removed(*old(subs), sub_id, *final(subs), dropped@)
                &&& final(seqs).next == old(seqs).next
            },
        },
{
    match enqueued {
        Err(e) => {
            return Settled::Unsent(e);
        },
        Ok(_) => {},
    }
    match reply {
        Ok(_) => {
            if has_slot {
                let number: u64 = seqs.next();
                let generation: u32 = relay.generation_of(consumer_id);
                Settled::Open(Some(AckStateReq { number, consumer_id, generation }))
            } else {
                Settled::Open(None)
            }
        },
        Err(e) => {
            let dropped = subs.remove(sub_id);
            Settled::Refused(e, dropped)
        },
    }
}

/// How a batch of subscriptions, opened in one round trip, was settled.
#[derive(Debug)]
pub enum BatchSettled {
    /// Which entries are open; the registrations of the others are to go.
    Open(Vec<bool>),
    /// The request was never sent; the registrations stay for a reconnect to
    /// replay.
    Unsent(ClientError),
    /// The broker refused the whole, or the reply never came: every
    /// registration is to go.
    Refused(ClientError),
}

/// Settle a batch of `n` subscriptions: `enqueued` tells whether the request
/// went out, and `reply` which entries the broker refused, by index. Entries
/// beside a refused one stay open.
pub fn settle_batch(
    n: usize,
    enqueued: Result<(), ClientError>,
    reply: Result<Vec<usize>, ClientError>,
) -> (r: BatchSettled)
    ensures
        match (enqueued, reply) {
            (Err(e), _) => r == BatchSettled::Unsent(e),
            (Ok(_), Err(e)) => r == BatchSettled::Refused(e),
            (Ok(_), Ok(rejected)) => {
                &&& r matches BatchSettled::Open(open)
                &&& open@.len() == n
                &&& forall|i: int|
                    0 <= i < n ==> #[trigger] open@[i] == !rejected@.contains(i as usize)
            },
        },
{
    match enqueued {
        Err(e) => {
            return BatchSettled::Unsent(e);
        },
        Ok(_) => {},
    }
    let rejected = match reply {
        Ok(rejected) => rejected,
        Err(e) => {
            return BatchSettled::Refused(e);
        },
    };
    let mut open: Vec<bool> = Vec::new();
    let mut i: usize = 0;
    while i < n
        invariant
            i <= n,
            open@.len() == i,
            forall|j: int| 0 <= j < i ==> #[trigger] open@[j],
        decreases n - i,
    {
        open.push(true);
        i = i + 1;
    }
    let mut k: usize = 0;
    while k < rejected.len()
        invariant
            k <= rejected@.len(),
            open@.len() == n,
            forall|j: int|
                0 <= j < n ==> #[trigger] open@[j] == !rejected@.take(k as int).contains(
                    j as usize,
                ),
        decreases rejected@.len() - k,
    {
        let at: usize = rejected[k];
        if at < n {
            open.set(at, false);
        }
        proof {
            let a = rejected@.take(k as int);
            let b = rejected@.take(k + 1);
            assert(b =~= a.push(at));
            assert forall|j: int| 0 <= j < n implies #[trigger] open@[j] == !b.contains(
                j as usize,
            ) by {
                if a.contains(j as usize) {
                    let m = choose|m: int| 0 <= m < a.len() && a[m] == j as usize;
                    assert(b[m] == j as usize);
                }
                assert(b[k as int] == at);
                if b.contains(j as usize) && j != at {
                    let m = choose|m: int| 0 <= m < b.len() && b[m] == j as usize;
                    assert(a[m] == j as usize);
                }
            }
        }
        k = k + 1;
    }
    assert(rejected@.take(k as int) =~= rejected@);
    BatchSettled::Open(open)
}

} // verus!
