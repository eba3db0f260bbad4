//! What a client decides on its own: whether a configuration can work, what a
//! reply means, and what a queue subscription asks for.

use crate::ackstore::store::StoreError;
use crate::config::{ClientConfig, MAX_AUTH_TOKEN_LEN, RESERVED_LEASES};
use crate::consumer_builder::{CreateConsumer, SubjectLimit};
use crate::error::{invalid, is_invalid, refused, ClientError, ErrorCode, ProtoError, RequestResult};
use crate::le::{get_u64, le_bytes, le_bytes_len, le_round_trip, le_value, pow256_values};
use crate::policy::{AckPolicy, DeliverMode};
use crate::queue::QueueOptions;
use crate::state::subscriptions::{
    channels, has_sub, holds, sub_ids, Subscription, Subscriptions,
};
use crate::text::{byte_len, decimal, push_decimal};
use vstd::arithmetic::power2::{lemma_pow2_unfold, pow2};
use vstd::prelude::*;
use vstd::slice::slice_to_vec;
use vstd::utf8::encode_utf8;

verus! {

// ── connecting ─────────────────────────────────────────────────────────────
/// Where the delivered-set store comes from.
#[derive(Debug, Clone, Copy, PartialEq, Eq, Structural)]
pub enum StoreChoice {
    /// The caller has brought one.
    Supplied,
    /// The configuration says where to open one.
    Open,
    /// There is none.
    Absent,
}

/// Which part of setting the store up has failed.
#[derive(Debug, Clone, Copy, PartialEq, Eq, Structural)]
pub enum StoreStep {
    Open,
    Restore,
}

/// What follows the attempt at a first connection.
#[derive(Debug)]
pub enum FirstConnection {
    Ready,
    /// Cancel the background tasks and close the store, so that its directory
    /// is free for the next attempt; then report the error.
    Abandon(ClientError),
}

/// A power of two.
pub open spec fn power_of_two(n: nat) -> bool {
    exists|k: nat| n == #[trigger] pow2(k)
}

/// What is said of a token of `n` bytes that is too long.
pub open spec fn token_text(n: nat) -> Seq<char> {
    "auth_token is "@ + decimal(n) + " bytes, the broker accepts at most 4096"@
}

/// What is said of a ring depth.
pub open spec fn depth_text(n: nat) -> Seq<char> {
    "write_queue_capacity must be a non-zero power of two, got "@ + decimal(n)
}

/// What is said of a number of rings.
pub open spec fn producers_text(max: nat, n: nat) -> Seq<char> {
    "max_write_producers must be 5..="@ + decimal(max)
        + " (4 are reserved for background tasks), got "@ + decimal(n)
}

/// First part of connecting, before anything is opened: refuse a token that
/// the broker would refuse in a way that looks like a dropped connection, and
/// tell where the store comes from. A supplied store wins over the
/// configured one.
pub fn prepare(cfg: &ClientConfig, supplied: bool) -> (r: Result<StoreChoice, ClientError>)
    ensures
        match cfg.auth_token {
            Some(t) if encode_utf8(t@).len() > MAX_AUTH_TOKEN_LEN => refused(
                r,
                token_text(encode_utf8(t@).len()),
            ),
            _ => r == Ok::<StoreChoice, ClientError>(
                if supplied {
                    StoreChoice::Supplied
                } else if cfg.ack_store is Some {
                    StoreChoice::Open
                } else {
                    StoreChoice::Absent
                },
            ),
        },
        r is Err <==> cfg.auth_token is Some && encode_utf8(cfg.auth_token->0@).len() > 4096,
{
    match &cfg.auth_token {
        Some(t) => {
            let n: usize = byte_len(t.as_str());
            if n > MAX_AUTH_TOKEN_LEN {
                let mut s = "auth_token is ".to_owned();
                push_decimal(&mut s, n as u64);
                s.push_str(" bytes, the broker accepts at most 4096");
                return Err(ClientError::InvalidConfig(s));
            }
        },
        None => {},
    }
    if supplied {
        Ok(StoreChoice::Supplied)
    } else if cfg.ack_store.is_some() {
        Ok(StoreChoice::Open)
    } else {
        Ok(StoreChoice::Absent)
    }
}

/// The error for a store that could not be set up.
pub fn store_failed(step: StoreStep, e: &StoreError) -> (r: ClientError)
    ensures
        is_invalid(
            r,
            (match step {
                StoreStep::Open => "ackstore open: "@,
                StoreStep::Restore => "ackstore restore: "@,
            }) + e.text(),
        ),
{
    let mut s = match step {
        StoreStep::Open => "ackstore open: ".to_owned(),
        StoreStep::Restore => "ackstore restore: ".to_owned(),
    };
    s.push_str(e.message().as_str());
    ClientError::InvalidConfig(s)
}

/// Whether a number is a power of two.
pub fn is_power_of_two(n: usize) -> (r: bool)
    ensures
        r == power_of_two(n as nat),
    decreases n,
{
    if n == 1 {
        proof {
            vstd::arithmetic::power2::lemma2_to64();
            assert(pow2(0) == 1);
        }
        true
    } else if n == 0 || n % 2 == 1 {
        proof {
            assert forall|k: nat| n != #[trigger] pow2(k) by {
                vstd::arithmetic::power2::lemma_pow2_pos(k);
                if k > 0 {
                    lemma_pow2_unfold(k);
                } else {
                    vstd::arithmetic::power2::lemma2_to64();
                }
            }
        }
        false
    } else {
        let r = is_power_of_two(n / 2);
        proof {
            let h = (n / 2) as nat;
            if r {
                let k = choose|k: nat| h == #[trigger] pow2(k);
                lemma_pow2_unfold(k + 1);
                assert(n as nat == pow2(k + 1));
            } else {
                assert forall|k: nat| n != #[trigger] pow2(k) by {
                    if k > 0 {
                        lemma_pow2_unfold(k);
                        assert(n as nat == pow2(k) ==> h == pow2((k - 1) as nat));
                    } else {
                        vstd::arithmetic::power2::lemma2_to64();
                    }
                }
            }
        }
        r
    }
}

/// Second part of connecting: the rings must have a depth that is a power of
/// two, and there must be more of them than the background tasks hold.
/// `max_producers` is what the ring channel can offer.
pub fn check_rings(cfg: &ClientConfig, max_producers: usize) -> (r: Result<(), ClientError>)
    ensures
        if !power_of_two(cfg.write_queue_capacity as nat) {
            refused(r, depth_text(cfg.write_queue_capacity as nat))
        } else if cfg.max_write_producers <= RESERVED_LEASES || cfg.max_write_producers
            > max_producers {
            refused(r, producers_text(max_producers as nat, cfg.max_write_producers as nat))
        } else {
            r is Ok
        },
        r is Ok <==> (exists|k: nat| cfg.write_queue_capacity == #[trigger] pow2(k)) && 5
            <= cfg.max_write_producers <= max_producers,
{
    if !is_power_of_two(cfg.write_queue_capacity) {
        let mut s = "write_queue_capacity must be a non-zero power of two, got ".to_owned();
        push_decimal(&mut s, cfg.write_queue_capacity as u64);
        return Err(ClientError::InvalidConfig(s));
    }
    if cfg.max_write_producers <= RESERVED_LEASES || cfg.max_write_producers > max_producers {
        let mut s = "max_write_producers must be 5..=".to_owned();
        push_decimal(&mut s, max_producers as u64);
        s.push_str(" (4 are reserved for background tasks), got ");
        push_decimal(&mut s, cfg.max_write_producers as u64);
        return Err(ClientError::InvalidConfig(s));
    }
    Ok(())
}

/// Last part of connecting.
pub fn first_connection(outcome: Result<(), ClientError>) -> (r: FirstConnection)
    ensures
        r == (match outcome {
            Ok(_) => FirstConnection::Ready,
            Err(e) => FirstConnection::Abandon(e),
        }),
{
    match outcome {
        Ok(_) => FirstConnection::Ready,
        Err(e) => FirstConnection::Abandon(e),
    }
}

// ── replies ────────────────────────────────────────────────────────────────
pub const SHORT_CONSUMER_ID: &'static str = "broker reply shorter than expected u64 consumer_id";

pub const SHORT_STREAM_ID: &'static str = "broker reply shorter than expected u64 stream_id";

pub const SHORT_ID: &'static str = "response too short to contain id";

/// The number in the first eight bytes of a reply.
pub open spec fn reply_number(resp: Seq<u8>) -> nat {
    le_value(resp.take(8))
}

/// The id that a reply assigns: the low 32 bits of its number.
pub open spec fn reply_id(resp: Seq<u8>) -> nat {
    reply_number(resp) % 0x1_0000_0000
}

/// Read the id out of a reply that has one.
pub fn id_in(resp: &[u8]) -> (r: u32)
    requires
        resp@.len() >= 8,
    ensures
        r as nat == reply_id(resp@),
{
    let n: u64 = get_u64(resp, 0);
    assert(resp@.subrange(0, 8) =~= resp@.take(8));
    (n % 0x1_0000_0000) as u32
}

/// Read the id out of a reply, or fail with `text`.
pub fn parse_id(resp: &[u8], text: &str) -> (r: Result<u32, ClientError>)
    ensures
        if resp@.len() < 8 {
            refused(r, text@)
        } else {
            r matches Ok(id) && id as nat == reply_id(resp@)
        },
{
    if resp.len() < 8 {
        return Err(invalid(text));
    }
    Ok(id_in(resp))
}

/// Read the count of unacknowledged messages out of a reply.
pub fn get_pending(resp: &[u8]) -> (r: Result<u64, ClientError>)
    ensures
        if resp@.len() < 8 {
            r == Err::<u64, ClientError>(
                ClientError::Proto(
                    ProtoError::BufferTooShort { need: 8, have: resp@.len() as usize },
                ),
            )
        } else {
            r matches Ok(n) && n as nat == reply_number(resp@)
        },
{
    if resp.len() < 8 {
        return Err(ClientError::Proto(ProtoError::BufferTooShort { need: 8, have: resp.len() }));
    }
    assert(resp@.subrange(0, 8) =~= resp@.take(8));
    Ok(get_u64(resp, 0))
}

/// The broker refused with this code.
pub open spec fn refused_with(reply: RequestResult, code: ErrorCode) -> bool {
    reply == RequestResult::Err(ClientError::Broker { code })
}

/// A yes-or-no answer: yes for a reply, no for the given refusals, and any
/// other error as it is.
pub open spec fn answers(reply: RequestResult, no: bool, r: Result<bool, ClientError>) -> bool {
    match reply {
        Ok(_) => r == Ok::<bool, ClientError>(true),
        Err(e) => r == if no {
            Ok::<bool, ClientError>(false)
        } else {
            Err(e)
        },
    }
}

/// Whether a stream exists, from the reply to a request for it.
pub fn stream_exists(reply: RequestResult) -> (r: Result<bool, ClientError>)
    ensures
        answers(reply, refused_with(reply, ErrorCode::StreamNotFound), r),
        match reply {
            Ok(_) => r == Ok::<bool, ClientError>(true),
            Err(ClientError::Broker { code: ErrorCode::StreamNotFound }) => r == Ok::<
                bool,
                ClientError,
            >(false),
            Err(e) => r == Err::<bool, ClientError>(e),
        },
{
    match reply {
        Ok(_) => Ok(true),
        Err(ClientError::Broker { code: ErrorCode::StreamNotFound }) => Ok(false),
        Err(e) => Err(e),
    }
}

/// Whether a consumer exists, from the reply to a request for it. Without its
/// stream it does not.
pub fn consumer_exists(reply: RequestResult) -> (r: Result<bool, ClientError>)
    ensures
        answers(
            reply,
            refused_with(reply, ErrorCode::ConsumerNotFound) || refused_with(
                reply,
                ErrorCode::StreamNotFound,
            ),
            r,
        ),
        match reply {
            Ok(_) => r == Ok::<bool, ClientError>(true),
            Err(ClientError::Broker { code: ErrorCode::ConsumerNotFound }) => r == Ok::<
                bool,
                ClientError,
            >(false),
            Err(ClientError::Broker { code: ErrorCode::StreamNotFound }) => r == Ok::<
                bool,
                ClientError,
            >(false),
            Err(e) => r == Err::<bool, ClientError>(e),
        },
{
    match reply {
        Ok(_) => Ok(true),
        Err(ClientError::Broker { code: ErrorCode::ConsumerNotFound }) => Ok(false),
        Err(ClientError::Broker { code: ErrorCode::StreamNotFound }) => Ok(false),
        Err(e) => Err(e),
    }
}

/// Whether a stream was created, from the reply to the request to create it.
/// `false`: it was there already.
pub fn upsert_stream(reply: RequestResult) -> (r: Result<bool, ClientError>)
    ensures
        answers(reply, refused_with(reply, ErrorCode::StreamAlreadyExists), r),
        match reply {
            Ok(_) => r == Ok::<bool, ClientError>(true),
            Err(ClientError::Broker { code: ErrorCode::StreamAlreadyExists }) => r == Ok::<
                bool,
                ClientError,
            >(false),
            Err(e) => r == Err::<bool, ClientError>(e),
        },
{
    match reply {
        Ok(_) => Ok(true),
        Err(ClientError::Broker { code: ErrorCode::StreamAlreadyExists }) => Ok(false),
        Err(e) => Err(e),
    }
}

/// Whether a consumer was created. `false`: it was there already.
pub fn upsert_consumer(reply: RequestResult) -> (r: Result<bool, ClientError>)
    ensures
        answers(reply, refused_with(reply, ErrorCode::ConsumerAlreadyExists), r),
        match reply {
            Ok(_) => r == Ok::<bool, ClientError>(true),
            Err(ClientError::Broker { code: ErrorCode::ConsumerAlreadyExists }) => r == Ok::<
                bool,
                ClientError,
            >(false),
            Err(e) => r == Err::<bool, ClientError>(e),
        },
{
    match reply {
        Ok(_) => Ok(true),
        Err(ClientError::Broker { code: ErrorCode::ConsumerAlreadyExists }) => Ok(false),
        Err(e) => Err(e),
    }
}

/// The reply to a request to delete a consumer. Only once the broker has
/// confirmed are the local routes dropped: a consumer that still exists stays
/// reachable. Returns the reply and the channels that have lost their
/// subscription.
pub fn delete_consumer(subs: &mut Subscriptions, consumer_id: u32, reply: RequestResult) -> (r:
    Result<(Vec<u8>, Vec<u64>), ClientError>)
    requires
        old(subs).wf(),
    ensures
        final(subs).wf(),
        match reply {
            Ok(body) => {
                &&& r matches Ok((b, dropped))
                &&& b == body
                &&& dropped@ == channels(old(subs).subs_of(consumer_id))
                &&& final(subs).by_consumer@ == old(subs).by_consumer@.remove(consumer_id)
                &&& final(subs).by_sub@ == old(subs).by_sub@.remove_keys(
                    sub_ids(old(subs).subs_of(consumer_id)),
                )
            },
            Err(e) => r == Err::<(Vec<u8>, Vec<u64>), ClientError>(e) && *final(subs) == *old(subs),
        },
        reply is Ok ==> forall|c: u32, sub: Subscription| #[trigger]
            holds(*final(subs), c, sub) <==> holds(*old(subs), c, sub) && c != consumer_id,
        reply is Ok ==> forall|k: u32| #[trigger]
            final(subs).by_sub@.contains_key(k) <==> old(subs).by_sub@.contains_key(k) && old(
                subs,
            ).by_sub@[k].consumer_id != consumer_id,
        reply is Ok && old(subs).by_consumer@.contains_key(consumer_id) ==> {
            let gone = old(subs).by_consumer@[consumer_id].subs@;
            &&& r->Ok_0.1@.len() == gone.len()
            &&& forall|i: int|
                0 <= i < gone.len() ==> #[trigger] r->Ok_0.1@[i] == gone[i].channel
        },
{
    match reply {
        Ok(body) => {
            let ghost s0 = *subs;
            let dropped = subs.remove_consumer(consumer_id);
            proof {
                let s1 = *subs;
                assert forall|k: u32| #[trigger]
                    s1.by_sub@.contains_key(k) <==> s0.by_sub@.contains_key(k)
                        && s0.by_sub@[k].consumer_id != consumer_id by {
                    if s0.by_sub@.contains_key(k) {
                        routes_of_a_consumer(s0, consumer_id, k);
                    }
                }
            }
            Ok((body, dropped))
        },
        Err(e) => Err(e),
    }
}

/// How to go on after a request to create a stream that may be there already.
#[derive(Debug)]
pub enum StreamStep {
    /// The stream is there, under this id.
    Have(u32),
    /// It was there before: ask for its id.
    Ask,
    Failed(ClientError),
}

/// Go on after a request to create a stream. A reply has its eight bytes.
pub fn stream_created(reply: RequestResult) -> (r: StreamStep)
    requires
        reply matches Ok(body) ==> body@.len() >= 8,
    ensures
        match reply {
            Ok(body) => r matches StreamStep::Have(id) && id as nat == reply_id(body@),
            Err(e) => r == if refused_with(reply, ErrorCode::StreamAlreadyExists) {
                StreamStep::Ask
            } else {
                StreamStep::Failed(e)
            },
        },
        match reply {
            Ok(_) => r is Have,
            Err(ClientError::Broker { code: ErrorCode::StreamAlreadyExists }) => r is Ask,
            Err(e) => r == StreamStep::Failed(e),
        },
{
    match reply {
        Ok(body) => StreamStep::Have(id_in(body.as_slice())),
        Err(ClientError::Broker { code: ErrorCode::StreamAlreadyExists }) => StreamStep::Ask,
        Err(e) => StreamStep::Failed(e),
    }
}

// ── work queues ────────────────────────────────────────────────────────────
pub const EMPTY_QUEUE: &'static str = "queue_subscribe requires a non-empty queue name — it is both the durable consumer name and the queue group";

/// `limits` are the subject limits `pairs`.
pub open spec fn same_limits(limits: Seq<SubjectLimit>, pairs: Seq<(Vec<u8>, u32)>) -> bool {
    &&& limits.len() == pairs.len()
    &&& forall|i: int|
        0 <= i < limits.len() ==> (#[trigger] limits[i]).pattern@ == pairs[i].0@ && limits[i].limit
            == pairs[i].1
}

/// The consumer behind a work queue. The queue's name is its name and its
/// group, so that workers that join the queue can never disagree on it. The
/// subject filter stays with the subscription.
pub fn queue_consumer(stream_id: u32, queue: &[u8], opts: &QueueOptions, by_start_seq: u8) -> (r:
    Result<CreateConsumer, ClientError>)
    ensures
        if queue@.len() == 0 {
            refused(r, EMPTY_QUEUE@)
        } else {
            &&& r matches Ok(req)
            &&& req.stream_id == stream_id
            &&& req.name@ == queue@
            &&& req.group@ == queue@
            &&& req.subject@.len() == 0
            &&& req.max_inflight == opts.max_inflight
            &&& req.ack_policy == AckPolicy::Explicit.wire()
            &&& req.deliver_policy == opts.deliver_policy.wire(by_start_seq)
            &&& req.deliver_mode == DeliverMode::Queue.wire()
            &&& req.ack_wait_ms == opts.ack_wait_ms
            &&& req.start_seq == opts.start_seq
            &&& same_limits(req.subject_limits@, opts.subject_limits@)
        },
        r matches Ok(req) ==> {
            &&& req.ack_policy == 1
            &&& req.deliver_mode == 1
            &&& req.subject_limits@.len() == opts.subject_limits@.len()
            &&& forall|i: int|
                0 <= i < req.subject_limits@.len() ==> (#[trigger] req.subject_limits@[i]).pattern@
                    == opts.subject_limits@[i].0@ && req.subject_limits@[i].limit
                    == opts.subject_limits@[i].1
        },
{
    if queue.len() == 0 {
        return Err(invalid(EMPTY_QUEUE));
    }
    let mut limits: Vec<SubjectLimit> = Vec::new();
    let mut i: usize = 0;
    while i < opts.subject_limits.len()
        invariant
            i <= opts.subject_limits@.len(),
            same_limits(limits@, opts.subject_limits@.take(i as int)),
        decreases opts.subject_limits@.len() - i,
    {
        limits.push(
            SubjectLimit {
                pattern: slice_to_vec(opts.subject_limits[i].0.as_slice()),
                limit: opts.subject_limits[i].1,
            },
        );
        i = i + 1;
    }
    assert(opts.subject_limits@.take(i as int) =~= opts.subject_limits@);
    Ok(
        CreateConsumer {
            stream_id,
            name: slice_to_vec(queue),
            group: slice_to_vec(queue),
            subject: Vec::new(),
            max_inflight: opts.max_inflight,
            ack_policy: AckPolicy::Explicit.as_u8(),
            deliver_policy: opts.deliver_policy.as_u8(by_start_seq),
            deliver_mode: DeliverMode::Queue.as_u8(),
            ack_wait_ms: opts.ack_wait_ms,
            start_seq: opts.start_seq,
            subject_limits: limits,
        },
    )
}

/// The routes of a consumer are those to its subscriptions.
proof fn routes_of_a_consumer(s: Subscriptions, consumer_id: u32, k: u32)
    requires
        s.wf(),
        s.by_sub@.contains_key(k),
    ensures
        sub_ids(s.subs_of(consumer_id)).contains(k) <==> s.by_sub@[k].consumer_id == consumer_id,
{
    assert(s.route_ok(k));
    let r = s.by_sub@[k];
    let list = s.subs_of(consumer_id);
    if r.consumer_id == consumer_id {
        assert(list[r.idx as int].id == k);
    }
    if has_sub(list, k) {
        let j = choose|j: int| 0 <= j < list.len() && (#[trigger] list[j]).id == k;
        assert(s.by_consumer@[consumer_id].subs@[j].id == k);
    }
}

// ── laws ───────────────────────────────────────────────────────────────────
/// The id that the broker writes into a reply is the id that is read out of
/// it, whatever follows.
pub proof fn reply_ids_read_back(id: u32, rest: Seq<u8>)
    ensures
        reply_id(le_bytes(id as nat, 8) + rest) == id,
        reply_number(le_bytes(id as nat, 8) + rest) == id,
{
    let resp = le_bytes(id as nat, 8) + rest;
    le_bytes_len(id as nat, 8);
    pow256_values();
    le_round_trip(id as nat, 8);
    assert(resp.take(8) =~= le_bytes(id as nat, 8));
}

/// The number that the broker writes into a reply is read in full, low byte
/// first; an id is its low half.
pub proof fn reply_numbers_read_back(n: u64, rest: Seq<u8>)
    ensures
        reply_number(le_bytes(n as nat, 8) + rest) == n,
        reply_id(le_bytes(n as nat, 8) + rest) == n % 0x1_0000_0000,
{
    let resp = le_bytes(n as nat, 8) + rest;
    le_bytes_len(n as nat, 8);
    pow256_values();
    le_round_trip(n as nat, 8);
    assert(resp.take(8) =~= le_bytes(n as nat, 8));
}

} // verus!
