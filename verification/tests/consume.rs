use arbitro_client::ackrel::cold::{state_after_purge, StateSummary, StateWrite};
use arbitro_client::ackrel::relay::AckRelay;
use arbitro_client::ackstore::memory::MemoryStore;
use arbitro_client::ackstore::store::Store;
use arbitro_client::consume::batch::{
    answer_frames, expire_deferred, sweep_frames, AnswerFrame, Batch, ExpireClock,
};
use arbitro_client::consume::demux::{deliver, parse_batch, parse_deliver, Entry, Routed};
use arbitro_client::consume::message::{
    decode_reply_to, encode_reply_to, AckCmd, Message, NackCmd,
};
use arbitro_client::consume::subscribe::{
    request_filters, resolve_slot, settle, settle_batch, subscription_numbers, BatchSettled, Settled,
};
use arbitro_client::error::ClientError;
use arbitro_client::metrics::ClientMetrics;
use arbitro_client::state::seq::{SeqAllocator, SubIdAllocator};
use arbitro_client::state::subscriptions::{Registration, Subscriptions};

const NOW: i64 = 1_000_000;

fn reg(consumer_id: u32, sub_id: u32, filter: &[u8], fanout: bool, dedup: Option<u32>) -> Registration {
    Registration {
        consumer_id,
        stream_id: 4,
        fanout,
        dedup,
        sub_id,
        filter: filter.to_vec(),
        frame: Vec::new(),
        channel: u64::from(sub_id) * 10,
    }
}

fn message(seq: u64, slot: Option<u32>) -> Message {
    Message {
        seq,
        consumer_id: 7,
        stream_id: 4,
        sub_id: 1,
        subject: b"orders.new".to_vec(),
        reply_to: encode_reply_to(9, b"inbox.1"),
        payload: b"data".to_vec(),
        slot,
    }
}

#[test]
fn reply_addresses_name_their_stream() {
    let a = encode_reply_to(0x01020304, b"inbox");
    assert_eq!(a, vec![0xFF, 4, 3, 2, 1, b'i', b'n', b'b', b'o', b'x']);
    assert_eq!(decode_reply_to(&a), Some((0x01020304, &b"inbox"[..])));
    assert_eq!(decode_reply_to(b"plain.subject"), None);
    assert_eq!(decode_reply_to(&[0xFF, 1, 2, 3]), None);
}

#[test]
fn a_message_without_address_cannot_be_replied_to() {
    let mut m = message(1, None);
    assert_eq!(m.reply().unwrap(), (9, b"inbox.1".to_vec()));
    m.reply_to = Vec::new();
    assert!(!m.has_reply_to());
    assert!(matches!(m.reply(), Err(ClientError::NoReplyAddress)));
}

#[test]
fn an_ack_records_the_message() {
    let mut store = MemoryStore::new(0);
    let slot = store.slot("s", "c", NOW).unwrap();
    let mut metrics = ClientMetrics::new();
    let cmd = message(5, Some(slot)).ack(&mut store, &mut metrics, NOW);
    assert_eq!(cmd, AckCmd { seq: 5, consumer_id: 7, sub_id: 1 });
    assert!(store.seen(slot, 5));
    assert_eq!(metrics.ackstore_records, 1);
}

#[test]
fn nacks_carry_their_delay() {
    let m = message(5, None);
    assert_eq!(m.nack(), NackCmd { seq: 5, consumer_id: 7, sub_id: 1, delay_ms: 0 });
    assert_eq!(m.nack_delay(250).delay_ms, 250);
}

#[test]
fn a_deferred_ack_waits_in_the_relay() {
    let mut relay = AckRelay::new();
    let mut metrics = ClientMetrics::new();
    message(5, None).ack_deferred(&mut relay, &mut metrics, 1_000);
    assert!(relay.is_pending(7, 5));
    assert_eq!(metrics.acks_deferred, 1);
}

fn deliver_frame(consumer: u32, sub: u32, seq: u64, subject: &[u8], payload: &[u8]) -> Vec<u8> {
    let mut f = vec![7, 0, 0, 0, 0, 0, 0, 0];
    f.extend_from_slice(&seq.to_le_bytes());
    f.extend_from_slice(&consumer.to_le_bytes());
    f.extend_from_slice(&sub.to_le_bytes());
    f.extend_from_slice(&(subject.len() as u16).to_le_bytes());
    f.extend_from_slice(&[0, 0]);
    f.extend_from_slice(subject);
    f.extend_from_slice(payload);
    f
}

#[test]
fn single_deliveries_are_read() {
    let f = deliver_frame(7, 1, 99, b"a.b", b"hello");
    let e = parse_deliver(&f).unwrap();
    assert_eq!((e.consumer_id, e.sub_id, e.seq), (7, 1, 99));
    assert_eq!(e.subject, b"a.b".to_vec());
    assert!(e.reply_to.is_empty());
    assert_eq!(e.payload, b"hello".to_vec());
    assert!(parse_deliver(&f[..27]).is_none());
    assert!(parse_deliver(&f[..30]).is_none(), "the subject is cut short");
}

fn batch_entry(consumer: u32, seq: u64, sub: u32, subject: &[u8], reply: &[u8], payload: &[u8]) -> Vec<u8> {
    let mut f = Vec::new();
    f.extend_from_slice(&consumer.to_le_bytes());
    f.extend_from_slice(&seq.to_le_bytes());
    f.extend_from_slice(&(subject.len() as u16).to_le_bytes());
    f.extend_from_slice(&(reply.len() as u16).to_le_bytes());
    f.extend_from_slice(&((subject.len() + reply.len() + payload.len()) as u32).to_le_bytes());
    f.extend_from_slice(&sub.to_le_bytes());
    f.extend_from_slice(subject);
    f.extend_from_slice(reply);
    f.extend_from_slice(payload);
    f
}

#[test]
fn batches_are_read_up_to_the_first_bad_entry() {
    let mut f = vec![0u8; 16];
    f.extend_from_slice(&3u16.to_le_bytes());
    f.extend_from_slice(&[0, 0]);
    f.extend_from_slice(&batch_entry(7, 1, 2, b"a.b", b"r", b"xyz"));
    let second = f.len();
    f.extend_from_slice(&batch_entry(8, 2, 3, b"c", b"", b""));
    let third = f.len();
    f.extend_from_slice(&batch_entry(9, 3, 4, b"d", b"", b"tail"));

    let all = parse_batch(&f);
    assert_eq!(all.len(), 3);
    assert_eq!(all[0].reply_to, b"r".to_vec());
    assert_eq!(all[0].payload, b"xyz".to_vec());
    assert_eq!((all[1].consumer_id, all[1].seq, all[1].sub_id), (8, 2, 3));
    assert_eq!(all[2].subject, b"d".to_vec());

    assert_eq!(parse_batch(&f[..third + 3]).len(), 2);
    // Subject and reply address longer than the data.
    f[second + 12] = 200;
    assert_eq!(parse_batch(&f).len(), 1);
}

fn entry(sub_id: u32, seq: u64, subject: &[u8]) -> Entry {
    Entry {
        consumer_id: 7,
        sub_id,
        seq,
        subject: subject.to_vec(),
        reply_to: Vec::new(),
        payload: b"p".to_vec(),
    }
}

#[test]
fn a_fanout_delivery_reaches_every_match() {
    let mut subs = Subscriptions::new();
    subs.register(reg(7, 1, b"orders.*", true, None));
    subs.register(reg(7, 2, b"", true, None));
    subs.register(reg(7, 3, b"other", true, None));
    let store = MemoryStore::new(0);
    let mut metrics = ClientMetrics::new();
    match deliver(&subs, &store, &mut metrics, &entry(1, 5, b"orders.new")) {
        Routed::Messages(out) => {
            let ids: Vec<u32> = out.iter().map(|(t, _)| t.sub_id).collect();
            assert_eq!(ids, vec![1, 2]);
            assert_eq!(out[1].1.sub_id, 2);
            assert_eq!(out[0].1.stream_id, 4);
        }
        _ => panic!("expected messages"),
    }
    assert_eq!(metrics.deliveries_received, 2);
}

#[test]
fn a_redelivery_is_acknowledged_and_runs_no_handler() {
    let mut store = MemoryStore::new(0);
    let slot = store.slot("s", "c", NOW).unwrap();
    let mut subs = Subscriptions::new();
    subs.register(reg(7, 1, b"", false, Some(slot)));
    let mut metrics = ClientMetrics::new();
    let e = entry(1, 5, b"x");
    let m = match deliver(&subs, &store, &mut metrics, &e) {
        Routed::Messages(mut out) => out.remove(0).1,
        _ => panic!("expected a message"),
    };
    m.ack(&mut store, &mut metrics, NOW);
    match deliver(&subs, &store, &mut metrics, &e) {
        Routed::Duplicate(cmd) => {
            assert_eq!(cmd, AckCmd { seq: 5, consumer_id: 7, sub_id: 1 })
        }
        _ => panic!("expected a duplicate"),
    }
    assert_eq!(metrics.dedup_hits, 1);
    assert!(matches!(deliver(&subs, &store, &mut metrics, &entry(9, 5, b"x")), Routed::Nowhere));
}

#[test]
fn answers_are_grouped_by_consumer() {
    let cmds = vec![
        AckCmd { seq: 1, consumer_id: 9, sub_id: 1 },
        AckCmd { seq: 2, consumer_id: 7, sub_id: 1 },
        AckCmd { seq: 3, consumer_id: 9, sub_id: 2 },
    ];
    let frames = answer_frames(&cmds, &mut SeqAllocator::new());
    assert_eq!(frames.len(), 2);
    assert!(matches!(&frames[0], AnswerFrame::Single { cmd, .. } if cmd.seq == 2));
    match &frames[1] {
        AnswerFrame::Many { consumer_id, cmds, .. } => {
            assert_eq!(*consumer_id, 9);
            let seqs: Vec<u64> = cmds.iter().map(|c| c.seq).collect();
            assert_eq!(seqs, vec![1, 3]);
        }
        _ => panic!("expected a batch"),
    }
}

#[test]
fn a_delayed_nack_never_travels_alone() {
    let delayed = vec![NackCmd { seq: 1, consumer_id: 7, sub_id: 1, delay_ms: 5 }];
    let frames = answer_frames(&delayed, &mut SeqAllocator::new());
    assert!(matches!(frames[0], AnswerFrame::Many { .. }));
    let plain = vec![NackCmd { seq: 1, consumer_id: 7, sub_id: 1, delay_ms: 0 }];
    let frames = answer_frames(&plain, &mut SeqAllocator::new());
    assert!(matches!(frames[0], AnswerFrame::Single { .. }));
}

#[test]
fn a_round_is_full_at_sixty_four() {
    let mut b = Batch::start(0u32);
    for i in 1..63 {
        assert!(!b.push(i));
    }
    assert!(b.push(63));
    assert_eq!(b.cmds.len(), 64);
}

#[test]
fn a_sweep_sends_the_oldest_deferred_acks() {
    let mut relay = AckRelay::new();
    for seq in (1..=1500u64).rev() {
        relay.record_deferred(3, 2, seq, 1_000);
    }
    let frames = sweep_frames(&relay, &mut SeqAllocator::new());
    assert_eq!(frames.len(), 1);
    assert_eq!((frames[0].consumer_id, frames[0].generation), (3, 2));
    assert_eq!(frames[0].seqs, (1..=1000).collect::<Vec<u64>>());
    assert!(relay.is_pending(3, 1), "sent is not yet confirmed");
}

#[test]
fn deferred_acks_expire_by_age() {
    let mut clock = ExpireClock::new();
    let due = (0..1200).filter(|_| clock.tick()).count();
    assert_eq!(due, 2);

    let mut relay = AckRelay::new();
    relay.record_deferred(3, 2, 10, 1_000);
    relay.record_deferred(3, 2, 11, 9_000);
    relay.record_deferred(4, 2, 12, 9_000);
    let mut metrics = ClientMetrics::new();
    assert_eq!(expire_deferred(&mut relay, &mut metrics, 10_000, 5_000), 2);
    assert!(!relay.is_pending(3, 10) && !relay.is_pending(3, 11), "a set expires as a whole");
    assert!(relay.is_pending(4, 12));
    assert_eq!(metrics.acks_expired, 2);
}

#[test]
fn subscriptions_are_numbered_from_one() {
    let mut seqs = SeqAllocator::new();
    let mut ids = SubIdAllocator::new();
    let (_, first) = subscription_numbers(&mut seqs, &mut ids);
    let (_, second) = subscription_numbers(&mut seqs, &mut ids);
    assert_ne!(first, 0);
    assert_ne!(first, second);
}

#[test]
fn an_empty_filter_is_none() {
    assert!(request_filters(b"").is_empty());
    assert_eq!(request_filters(b"a.*"), vec![b"a.*".to_vec()]);
}

#[test]
fn a_slot_that_cannot_be_had_does_not_stop_a_subscription() {
    let mut store = MemoryStore::new(0);
    let mut metrics = ClientMetrics::new();
    assert!(resolve_slot(&mut store, &mut metrics, "s", "c", NOW).is_some());
    let long = "x".repeat(70_000);
    assert!(resolve_slot(&mut store, &mut metrics, &long, "c", NOW).is_none());
    assert_eq!(metrics.ackstore_errors, 1);
}

#[test]
fn a_refused_subscription_is_undone() {
    let mut subs = Subscriptions::new();
    subs.register(reg(7, 1, b"", false, None));
    let relay = AckRelay::new();
    let mut seqs = SeqAllocator::new();
    let r = settle(&mut subs, &relay, &mut seqs, 7, 1, false, Ok(()), Err(ClientError::Timeout));
    match r {
        Settled::Refused(ClientError::Timeout, channels) => assert_eq!(channels, vec![10]),
        _ => panic!("expected a refusal"),
    }
    assert_eq!(subs.sizes(), (0, 0));
}

#[test]
fn a_durable_subscription_asks_for_its_cursor() {
    let mut subs = Subscriptions::new();
    subs.register(reg(7, 1, b"", false, Some(0)));
    let relay = AckRelay::new();
    let mut seqs = SeqAllocator::new();
    match settle(&mut subs, &relay, &mut seqs, 7, 1, true, Ok(()), Ok(Vec::new())) {
        Settled::Open(Some(req)) => assert_eq!((req.consumer_id, req.generation), (7, 0)),
        _ => panic!("expected a request"),
    }
    match settle(&mut subs, &relay, &mut seqs, 7, 1, true, Err(ClientError::QueueFull), Ok(Vec::new())) {
        Settled::Unsent(ClientError::QueueFull) => assert_eq!(subs.sizes(), (1, 1)),
        _ => panic!("expected an unsent request"),
    }
}

#[test]
fn a_consumer_with_nothing_outstanding_keeps_no_row() {
    let s = StateSummary { consumer_id: 1, generation: 2, count: 0, min_seq: 0, max_seq: 0 };
    assert_eq!(state_after_purge(s), StateWrite::Delete);
    let left = StateSummary { count: 3, min_seq: 5, max_seq: 9, ..s };
    assert_eq!(state_after_purge(left), StateWrite::Upsert(left));
}

#[test]
fn a_refused_entry_leaves_its_peers_open() {
    match settle_batch(4, Ok(()), Ok(vec![2, 0, 9])) {
        BatchSettled::Open(open) => assert_eq!(open, vec![false, true, false, true]),
        _ => panic!("expected an open batch"),
    }
    assert!(matches!(
        settle_batch(4, Ok(()), Err(ClientError::Timeout)),
        BatchSettled::Refused(ClientError::Timeout)
    ));
    assert!(matches!(
        settle_batch(4, Err(ClientError::QueueFull), Ok(Vec::new())),
        BatchSettled::Unsent(ClientError::QueueFull)
    ));
}

#[test]
fn subscription_ids_never_repeat_nearby() {
    let mut ids = SubIdAllocator { next: u32::MAX - 1 };
    let handed: Vec<u32> = (0..4).map(|_| ids.next()).collect();
    assert_eq!(handed, vec![u32::MAX - 1, u32::MAX, 1, 2]);
}
