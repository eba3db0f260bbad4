use arbitro_client::ackrel::relay::AckRelay;
use arbitro_client::ackstore::memory::MemoryStore;
use arbitro_client::ackstore::store::Store;
use arbitro_client::client::{
    check_rings, consumer_exists, get_pending, parse_id, prepare, stream_created, stream_exists,
    upsert_consumer, upsert_stream, StoreChoice, StreamStep, SHORT_ID,
};
use arbitro_client::config::{ClientConfig, KeepAlive, ReconnectPolicy};
use arbitro_client::conn::heartbeat::beat;
use arbitro_client::conn::reconnect::Backoff;
use arbitro_client::conn::session::{ack_state_reqs, handshake, ConnAction, ConnEvent, Connector};
use arbitro_client::error::{ClientError, ErrorCode, ProtoError};
use arbitro_client::metrics::{ClientMetrics, ClientMetricsSnapshot};
use arbitro_client::publish::{
    batch_parts, enqueue, sent_or_cancelled, waited, LeaseFault, SendFault, WaitEnd,
};
use arbitro_client::state::pending::{Pending, Registered};
use arbitro_client::state::seq::SeqAllocator;
use arbitro_client::state::subscriptions::{Registration, Subscriptions};
use arbitro_client::transport::ack_state::{
    on_ack_batch_resp, on_ack_state, AckBatchResp, AckStateRep,
};
use arbitro_client::transport::frame::WriteFrame;
use arbitro_client::transport::reader::{dispatch, FrameReader, Inbound, Protocol};

const MS: u64 = 1_000_000;
const NOW: i64 = 1_000_000;

fn policy(base: u64, cap: u64, max_attempts: Option<u32>) -> ReconnectPolicy {
    ReconnectPolicy { base, cap, max_attempts }
}

// ── reconnecting ──

#[test]
fn within_bounds_and_caps() {
    let mut b = Backoff::new(&policy(100 * MS, 1000 * MS, None));
    for _ in 0..200 {
        let d = b.next().unwrap();
        assert!(d >= 100 * MS);
        assert!(d <= 1000 * MS);
    }
}

#[test]
fn max_attempts_terminates() {
    let mut b = Backoff::new(&policy(MS, 10 * MS, Some(3)));
    assert!(b.next().is_some());
    assert!(b.next().is_some());
    assert!(b.next().is_some());
    assert!(b.next().is_none());
}

#[test]
fn reset_starts_over() {
    let mut b = Backoff::new(&policy(MS, 10 * MS, Some(2)));
    b.next().unwrap();
    b.next().unwrap();
    assert!(b.next().is_none());
    b.reset();
    assert!(b.next().is_some());
}

#[test]
fn delays_are_drawn_from_a_widening_range() {
    let mut b = Backoff::new(&policy(100, 10_000, None));
    assert_eq!(b.range(), (100, 300));
    assert_eq!(b.next_with(250), Some(250));
    assert_eq!(b.range(), (100, 750));
    assert_eq!(b.next_with(20_000), Some(10_000));
    assert_eq!(b.attempts(), 2);
}

#[test]
fn random_delays_are_not_the_bounds_only() {
    let mut low = false;
    let mut inner = false;
    for _ in 0..64 {
        let mut b = Backoff::new(&policy(1_000_000, 1_000_000_000, None));
        let d = b.next().unwrap();
        assert!((1_000_000..3_000_000).contains(&d));
        if d < 2_000_000 {
            low = true;
        }
        if d > 1_000_000 && d != 3_000_000 {
            inner = true;
        }
    }
    assert!(low && inner);
}

#[test]
fn the_loop_retries_and_then_gives_up() {
    let mut c = Connector::new(&policy(10, 20, Some(2)));
    let first = c.step(ConnEvent::SessionEnded { cancelled: false });
    assert!(matches!(first, ConnAction::Sleep(d) if (10..=20).contains(&d)));
    assert_eq!(c.step(ConnEvent::Slept), ConnAction::Dial);
    assert!(matches!(c.step(ConnEvent::DialFailed), ConnAction::Sleep(_)));
    assert_eq!(c.step(ConnEvent::Slept), ConnAction::Dial);
    assert_eq!(c.step(ConnEvent::DialFailed), ConnAction::Stop);
    assert_eq!(c.step(ConnEvent::Slept), ConnAction::Nothing);
}

#[test]
fn a_new_session_forgets_the_attempts() {
    let mut c = Connector::new(&policy(10, 20, Some(1)));
    assert!(matches!(c.step(ConnEvent::SessionEnded { cancelled: false }), ConnAction::Sleep(_)));
    c.step(ConnEvent::Slept);
    assert_eq!(c.step(ConnEvent::Dialed), ConnAction::Greet);
    assert_eq!(c.step(ConnEvent::Greeted), ConnAction::Run);
    assert!(matches!(c.step(ConnEvent::SessionEnded { cancelled: false }), ConnAction::Sleep(_)));
    assert_eq!(c.step(ConnEvent::Cancelled), ConnAction::Stop);
}

#[test]
fn a_closed_client_does_not_reconnect() {
    let mut c = Connector::new(&ReconnectPolicy::default());
    assert_eq!(c.step(ConnEvent::SessionEnded { cancelled: true }), ConnAction::Stop);
}

#[test]
fn the_handshake_ends_with_the_token() {
    assert_eq!(handshake(b"hello", Some(b"auth".to_vec())), b"helloauth".to_vec());
    assert_eq!(handshake(b"hello", None), b"hello".to_vec());
}

// ── heartbeat ──

#[test]
fn a_ping_is_a_bare_header() {
    let ping = beat(100, 50, 50).unwrap();
    let mut expected = vec![0x01, 0x06];
    expected.extend_from_slice(&[0u8; 14]);
    assert_eq!(ping.as_slice(), &expected[..]);
}

#[test]
fn silence_beyond_the_timeout_is_death() {
    assert!(matches!(beat(101, 50, 50), Err(ClientError::Disconnected)));
    assert!(beat(50, 101, 50).is_ok(), "a pong from just now");
}

// ── asking for ack state ──

fn registration(consumer_id: u32, dedup: Option<u32>) -> Registration {
    Registration {
        consumer_id,
        stream_id: 1,
        fanout: false,
        dedup,
        sub_id: consumer_id,
        filter: Vec::new(),
        frame: Vec::new(),
        channel: 0,
    }
}

#[test]
fn send_ack_state_reqs_covers_slotted_consumers() {
    let mut store = MemoryStore::new(0);
    let slot = store.slot("s", "c", NOW).unwrap();
    let mut subs = Subscriptions::new();
    subs.register(registration(7, Some(slot)));
    subs.register(registration(8, None));

    let mut seqs = SeqAllocator::new();
    let reqs = ack_state_reqs(&AckRelay::new(), &subs, &mut seqs);
    let asked: Vec<u32> = reqs.iter().map(|r| r.consumer_id).collect();
    assert_eq!(asked, vec![7], "exactly the slotted consumer is queried");
}

#[test]
fn deferred_acks_are_asked_about_once() {
    let mut subs = Subscriptions::new();
    subs.register(registration(7, Some(1)));
    let mut relay = AckRelay::new();
    relay.record_deferred(7, 3, 100, 1_000);
    relay.record_deferred(9, 5, 100, 1_000);
    let mut seqs = SeqAllocator::new();
    let reqs = ack_state_reqs(&relay, &subs, &mut seqs);
    let asked: Vec<(u32, u32)> = reqs.iter().map(|r| (r.consumer_id, r.generation)).collect();
    assert_eq!(asked, vec![(7, 3), (9, 5)]);
    assert_ne!(reqs[0].number, reqs[1].number);
}

// ── the broker's ack state ──

fn purge_fixture(cid: u32, seqs: &[u64]) -> (Subscriptions, MemoryStore, u32) {
    let mut store = MemoryStore::new(0);
    let slot = store.slot("s", "c", NOW).unwrap();
    for &s in seqs {
        store.record(slot, s, NOW).unwrap();
    }
    let mut subs = Subscriptions::new();
    subs.register(registration(cid, Some(slot)));
    (subs, store, slot)
}

#[test]
fn ack_state_rep_purges_ackstore_despite_generation_mismatch() {
    let (subs, mut store, slot) = purge_fixture(3, &[5, 10, 15, 10_000]);
    let rep = AckStateRep {
        consumer_id: 3,
        generation: 7,
        cursor: 15,
        low_seq: 1,
        high_seq: 20,
        status: 0,
    };
    let mut relay = AckRelay::new();
    let mut metrics = ClientMetrics::new();
    on_ack_state(&rep, &subs, &mut store, &mut relay, &mut SeqAllocator::new(), &mut metrics, NOW);

    let info = store.slot_info("s", "c").unwrap();
    assert_eq!(info.live, 1, "entries <= cursor(15) must be dropped");
    assert_eq!(info.min_seq, 10_000, "entries above the cursor must survive");
    assert!(!store.seen(slot, 5) && !store.seen(slot, 10) && !store.seen(slot, 15));
    assert!(store.seen(slot, 10_000));
}

#[test]
fn ack_state_rep_non_ok_status_purges_nothing() {
    let (subs, mut store, slot) = purge_fixture(4, &[5, 10, 15, 10_000]);
    let rep = AckStateRep {
        consumer_id: 4,
        generation: 0,
        cursor: 10_000,
        low_seq: 0,
        high_seq: 0,
        status: 3,
    };
    let mut relay = AckRelay::new();
    let mut metrics = ClientMetrics::new();
    on_ack_state(&rep, &subs, &mut store, &mut relay, &mut SeqAllocator::new(), &mut metrics, NOW);

    let info = store.slot_info("s", "c").unwrap();
    assert_eq!(info.live, 4, "no entry may be dropped without an OK status");
    assert!(
        store.seen(slot, 5)
            && store.seen(slot, 10)
            && store.seen(slot, 15)
            && store.seen(slot, 10_000)
    );
}

#[test]
fn without_the_brokers_word_no_deferred_ack_is_dropped() {
    for generation in [0, 9] {
        let (subs, mut store, _slot) = purge_fixture(4, &[5, 10, 15, 10_000]);
        let rep = AckStateRep {
            consumer_id: 4,
            generation,
            cursor: 10_000,
            low_seq: 0,
            high_seq: 0,
            status: 3,
        };
        let mut relay = AckRelay::new();
        relay.record_deferred(4, 0, 5, 1_000);
        let mut metrics = ClientMetrics::new();
        let mut seqs = SeqAllocator::new();
        on_ack_state(&rep, &subs, &mut store, &mut relay, &mut seqs, &mut metrics, NOW);
        assert!(relay.is_pending(4, 5));
        assert_eq!(relay.generation_of(4), 0);
    }
}

#[test]
fn ack_state_rep_matching_generation_still_purges() {
    let (subs, mut store, _slot) = purge_fixture(5, &[1, 2, 3, 400]);
    let rep = AckStateRep {
        consumer_id: 5,
        generation: 0,
        cursor: 3,
        low_seq: 1,
        high_seq: 400,
        status: 0,
    };
    let mut relay = AckRelay::new();
    let mut metrics = ClientMetrics::new();
    on_ack_state(&rep, &subs, &mut store, &mut relay, &mut SeqAllocator::new(), &mut metrics, NOW);

    let info = store.slot_info("s", "c").unwrap();
    assert_eq!(info.live, 1);
    assert_eq!(info.min_seq, 400);
}

#[test]
fn deferred_acks_above_the_cursor_go_out_again() {
    let (subs, mut store, _slot) = purge_fixture(5, &[]);
    let mut relay = AckRelay::new();
    for seq in [1, 2, 3, 4] {
        relay.record_deferred(5, 0, seq, 1_000);
    }
    let rep = AckStateRep {
        consumer_id: 5,
        generation: 0,
        cursor: 2,
        low_seq: 1,
        high_seq: 10,
        status: 0,
    };
    let mut metrics = ClientMetrics::new();
    let out =
        on_ack_state(&rep, &subs, &mut store, &mut relay, &mut SeqAllocator::new(), &mut metrics, NOW);
    assert_eq!(out.frames.len(), 1);
    assert_eq!(out.frames[0].seqs, vec![3, 4]);
    assert!(out.above_high.is_none());
}

#[test]
fn confirmed_acks_leave_relay_and_store() {
    let (subs, mut store, slot) = purge_fixture(5, &[1, 2, 3]);
    let mut relay = AckRelay::new();
    for seq in [1, 2, 3] {
        relay.record_deferred(5, 0, seq, 1_000);
    }
    let mut metrics = ClientMetrics::new();
    let rep = AckBatchResp { consumer_id: 5, new_cursor: 2 };
    let purged = on_ack_batch_resp(&rep, &subs, &mut store, &mut relay, &mut metrics, NOW);
    assert_eq!(purged, 2);
    assert!(!relay.is_pending(5, 2) && relay.is_pending(5, 3));
    assert!(!store.seen(slot, 2) && store.seen(slot, 3));
}

// ── frames ──

fn protocol() -> Protocol {
    Protocol {
        rep_ok: 1,
        rep_error: 2,
        list_streams: 3,
        list_consumers: 4,
        rep_subscribe_batch: 5,
        shard_topology: 6,
        deliver: 7,
        rep_batch: 8,
        fanout_batch: 9,
        pong: 10,
        cron_fire: 11,
        ack_state_rep: 12,
        ack_batch_resp: 13,
        rep_err_size: 20,
        error_code_at: 16,
        auth_failed: 401,
        auth_required: 402,
        ack_state_rep_size: 48,
        ack_batch_resp_size: 32,
    }
}

fn make_frame(action: u16, seq: u64, body: &[u8]) -> Vec<u8> {
    let mut f = Vec::new();
    f.extend_from_slice(&action.to_le_bytes());
    f.extend_from_slice(&[0, 0]);
    f.extend_from_slice(&(body.len() as u32).to_le_bytes());
    f.extend_from_slice(&seq.to_le_bytes());
    f.extend_from_slice(body);
    f
}

#[test]
fn partial_frame_split_to_handles_boundary() {
    let p = protocol();
    let mut pending: Pending<u32> = Pending::new();
    assert!(matches!(pending.register(55, 1), Registered::Waiting(None)));
    let frame = make_frame(p.rep_ok, 55, &[0u8; 8]);
    assert_eq!(frame.len(), 24);

    let mut reader = FrameReader::new();
    assert!(reader.feed(&p, &frame[..8]).unwrap().is_empty());
    let whole = reader.feed(&p, &frame[8..]).unwrap();
    assert_eq!(whole.len(), 1);

    match dispatch(&p, whole[0].clone()) {
        Inbound::Reply { seq, body } => {
            assert_eq!(seq, 55);
            let (waker, result) = pending.complete_ok(seq, body).unwrap();
            assert_eq!(waker, 1);
            assert_eq!(result.unwrap().len(), 8);
        }
        _ => panic!("expected a reply"),
    }
    assert_eq!(pending.len(), 0);
}

#[test]
fn several_frames_in_one_read() {
    let p = protocol();
    let mut all = make_frame(p.pong, 0, b"");
    all.extend_from_slice(&make_frame(p.cron_fire, 0, b"tick"));
    // A batch has its size in another place.
    let mut batch = Vec::new();
    batch.extend_from_slice(&p.rep_batch.to_le_bytes());
    batch.extend_from_slice(&[0; 6]);
    batch.extend_from_slice(&3u32.to_le_bytes());
    batch.extend_from_slice(&[0; 4]);
    batch.extend_from_slice(b"abc");
    all.extend_from_slice(&batch);
    all.extend_from_slice(b"rest");

    let mut reader = FrameReader::new();
    let frames = reader.feed(&p, &all).unwrap();
    assert_eq!(frames.len(), 3);
    assert_eq!(reader.buf, b"rest".to_vec());
    assert!(matches!(dispatch(&p, frames[0].clone()), Inbound::Pong));
    assert!(matches!(dispatch(&p, frames[1].clone()), Inbound::CronFire(b) if b == b"tick"));
    assert!(matches!(dispatch(&p, frames[2].clone()), Inbound::Batch(b) if b == batch));
}

#[test]
fn a_read_of_nothing_is_the_end() {
    assert!(matches!(FrameReader::new().feed(&protocol(), b""), Err(ClientError::Disconnected)));
}

#[test]
fn refusals_and_rejected_logins() {
    let p = protocol();
    let refusal = make_frame(p.rep_error, 9, &[7, 0, 0, 0]);
    assert!(matches!(dispatch(&p, refusal), Inbound::Refusal { seq: 9, code: 7 }));
    let login = make_frame(p.rep_error, 9, &[0x91, 0x01, 0, 0]);
    assert!(matches!(dispatch(&p, login), Inbound::AuthRejected { code: 401 }));
    let short = make_frame(p.rep_error, 9, &[7, 0]);
    assert!(matches!(dispatch(&p, short), Inbound::Ignored));
    let unknown = make_frame(999, 9, b"");
    assert!(matches!(dispatch(&p, unknown), Inbound::Ignored));
}

#[test]
fn small_frames_are_stored_inline() {
    let small = WriteFrame::pack(vec![7u8; 128]);
    assert!(matches!(small, WriteFrame::Inline(_, 128)));
    assert_eq!(small.as_slice(), &[7u8; 128][..]);
    let large = WriteFrame::pack(vec![7u8; 129]);
    assert!(matches!(large, WriteFrame::Mono(_)));
    assert_eq!(large.as_slice().len(), 129);
}

// ── requests in flight ──

#[test]
fn insert_remove_does_not_dangle() {
    let mut p: Pending<u32> = Pending::new();
    p.register(1, 10);
    assert_eq!(p.len(), 1);
    let (waker, val) = p.complete_ok(1, b"pong".to_vec()).unwrap();
    assert_eq!(waker, 10);
    assert_eq!(&val.unwrap()[..], b"pong");
    assert_eq!(p.len(), 0);
}

#[test]
fn drain_on_disconnect_wakes_all_with_disconnected() {
    let mut p: Pending<u64> = Pending::new();
    for seq in 1u64..=8 {
        p.register(seq, seq);
    }
    assert_eq!(p.len(), 8);
    let mut woken = p.drain_disconnected();
    woken.sort();
    assert_eq!(woken, (1u64..=8).collect::<Vec<u64>>());
    assert_eq!(p.len(), 0);
}

#[test]
fn a_refused_request_wakes_with_the_code() {
    let mut p: Pending<u32> = Pending::new();
    p.register(1, 10);
    p.register(2, 20);
    let (_, typed) = p.complete_err(1, 404, Some(ErrorCode::StreamNotFound)).unwrap();
    assert!(matches!(typed, Err(ClientError::Broker { code: ErrorCode::StreamNotFound })));
    let (_, unknown) = p.complete_err(2, 999, None).unwrap();
    assert!(matches!(unknown, Err(ClientError::BrokerUnknown(999))));
    assert!(p.complete_err(3, 1, None).is_none());
}

#[test]
fn a_request_that_was_not_sent_gives_its_slot_back() {
    let mut p: Pending<u32> = Pending::new();
    p.register(1, 10);
    let r = sent_or_cancelled(&mut p, 1, Err(ClientError::QueueFull));
    assert!(matches!(r, Err(ClientError::QueueFull)));
    assert_eq!(p.len(), 0);
    p.register(2, 20);
    assert!(sent_or_cancelled(&mut p, 2, Ok(())).is_ok());
    assert_eq!(p.len(), 1);
}

#[test]
fn what_the_writer_can_answer() {
    assert!(enqueue(Ok(()), Ok(())).is_ok());
    assert!(matches!(enqueue(Ok(()), Err(SendFault::Full)), Err(ClientError::QueueFull)));
    assert!(matches!(enqueue(Ok(()), Err(SendFault::Closed)), Err(ClientError::ChannelClosed)));
    assert!(matches!(
        enqueue(Err(LeaseFault::Exhausted), Ok(())),
        Err(ClientError::PoolExhausted)
    ));
    assert!(matches!(enqueue(Err(LeaseFault::Closed), Ok(())), Err(ClientError::ChannelClosed)));
    assert!(matches!(waited(WaitEnd::TimedOut), Err(ClientError::QueueFull)));
    assert!(waited(WaitEnd::Sent).is_ok());
}

#[test]
fn large_batches_are_cut() {
    let parts = batch_parts(600, true, &mut SeqAllocator::new());
    let sizes: Vec<usize> = parts.iter().map(|p| p.to - p.from).collect();
    assert_eq!(sizes, vec![256, 256, 88]);
    assert_eq!(batch_parts(0, true, &mut SeqAllocator::new()).len(), 1, "a reply is awaited");
    assert!(batch_parts(0, false, &mut SeqAllocator::new()).is_empty());
}

// ── metrics ──

#[test]
fn default_snapshot_is_zero() {
    let m = ClientMetrics::new();
    assert_eq!(m.snapshot(), ClientMetricsSnapshot::default());
}

#[test]
fn captures_increments() {
    let mut m = ClientMetrics::new();
    m.publishes_sent += 3;
    m.acks_sent += 7;
    m.active_subscriptions += 2;
    let s = m.snapshot();
    assert_eq!(s.publishes_sent, 3);
    assert_eq!(s.acks_sent, 7);
    assert_eq!(s.active_subscriptions, 2);
}

// ── configuration and replies ──

#[test]
fn config_defaults() {
    let c = ClientConfig::with_env(None, 64, 1024);
    assert_eq!(c.addr, "127.0.0.1:9898");
    assert_eq!(c.reconnect, policy(100 * MS, 30_000 * MS, None));
    assert_eq!(c.keep_alive, KeepAlive { interval: 30_000 * MS, timeout: 60_000 * MS });
    assert_eq!(c.write_queue_capacity, 4096);
    assert_eq!(c.max_block, 5_000 * MS);
    assert!(c.auth_token.is_none());
    assert!(ClientConfig::with_env(Some(String::new()), 64, 1024).auth_token.is_none());
    let token = ClientConfig::with_env(Some("SECRET-REDACTED".to_string()), 64, 1024).auth_token;
    assert_eq!(token.unwrap(), "SECRET-REDACTED");
}

#[test]
fn tokens_have_a_length_limit() {
    let mut c = ClientConfig::with_env(None, 64, 1024);
    c.auth_token = Some("t".repeat(4096));
    assert_eq!(prepare(&c, false).unwrap(), StoreChoice::Absent);
    c.auth_token = Some("t".repeat(4097));
    match prepare(&c, false) {
        Err(ClientError::InvalidConfig(m)) => {
            assert_eq!(m, "auth_token is 4097 bytes, the broker accepts at most 4096")
        }
        _ => panic!("expected InvalidConfig"),
    }
}

#[test]
fn rings_are_checked() {
    let mut c = ClientConfig::with_env(None, 64, 1024);
    assert!(check_rings(&c, 64).is_ok());
    for depth in [0usize, 3, 4095] {
        c.write_queue_capacity = depth;
        assert!(check_rings(&c, 64).is_err(), "depth {depth}");
    }
    c.write_queue_capacity = 1;
    c.max_write_producers = 4;
    match check_rings(&c, 64) {
        Err(ClientError::InvalidConfig(m)) => assert_eq!(
            m,
            "max_write_producers must be 5..=64 (4 are reserved for background tasks), got 4"
        ),
        _ => panic!("expected InvalidConfig"),
    }
    c.max_write_producers = 65;
    assert!(check_rings(&c, 64).is_err());
}

#[test]
fn replies_are_read() {
    let reply = [0x2A, 0, 0, 0, 0xFF, 0, 0, 0];
    assert_eq!(parse_id(&reply, SHORT_ID).unwrap(), 42);
    assert!(parse_id(&reply[..7], SHORT_ID).is_err());
    assert_eq!(get_pending(&reply).unwrap(), 0xFF_0000_002A);
    assert!(matches!(
        get_pending(&[1, 2, 3]),
        Err(ClientError::Proto(ProtoError::BufferTooShort { need: 8, have: 3 }))
    ));
}

#[test]
fn answers_tell_absence_from_failure() {
    let no_stream = || Err(ClientError::Broker { code: ErrorCode::StreamNotFound });
    let dup_stream = || Err(ClientError::Broker { code: ErrorCode::StreamAlreadyExists });
    let dup_consumer = || Err(ClientError::Broker { code: ErrorCode::ConsumerAlreadyExists });
    assert!(stream_exists(Ok(Vec::new())).unwrap());
    assert!(!stream_exists(no_stream()).unwrap());
    assert!(!consumer_exists(no_stream()).unwrap());
    assert!(matches!(stream_exists(Err(ClientError::Timeout)), Err(ClientError::Timeout)));
    assert!(upsert_stream(Ok(Vec::new())).unwrap());
    assert!(!upsert_stream(dup_stream()).unwrap());
    assert!(!upsert_consumer(dup_consumer()).unwrap());
    assert!(upsert_consumer(dup_stream()).is_err());
    assert!(matches!(stream_created(Ok(vec![9, 0, 0, 0, 0, 0, 0, 0])), StreamStep::Have(9)));
    assert!(matches!(stream_created(dup_stream()), StreamStep::Ask));
    assert!(matches!(
        stream_created(Err(ClientError::Timeout)),
        StreamStep::Failed(ClientError::Timeout)
    ));
}
