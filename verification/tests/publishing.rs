use arbitro_client::ackstore::store::StoreError;
use arbitro_client::client::{
    delete_consumer, first_connection, store_failed, FirstConnection, StoreStep,
};
use arbitro_client::error::ClientError;
use arbitro_client::metrics::ClientMetrics;
use arbitro_client::publish::{
    count_batch, count_publish, first_try, msg_id_of, reply_of, tail_bytes, BatchEntry, FirstTry,
    SendFault,
};
use arbitro_client::state::subscriptions::{Registration, Subscriptions};
use arbitro_client::transport::ack_state::WarnGate;

#[test]
fn a_full_ring_is_waited_for() {
    assert!(matches!(first_try(Ok(())), FirstTry::Done));
    assert!(matches!(first_try(Err(SendFault::Full)), FirstTry::Park));
    assert!(matches!(
        first_try(Err(SendFault::Closed)),
        FirstTry::Failed(ClientError::ChannelClosed)
    ));
}

#[test]
fn a_dropped_slot_is_a_closed_channel() {
    assert!(matches!(reply_of(None), Err(ClientError::ChannelClosed)));
    assert_eq!(reply_of(Some(Ok(vec![1]))).unwrap(), vec![1]);
}

#[test]
fn only_what_was_sent_is_counted() {
    let mut m = ClientMetrics::new();
    count_publish(&mut m, &Ok(()));
    count_publish(&mut m, &Err(ClientError::QueueFull));
    count_batch(&mut m, &Ok(()), 7);
    count_batch(&mut m, &Err(ClientError::QueueFull), 7);
    assert_eq!((m.publishes_sent, m.publish_batch_entries), (1, 7));
}

#[test]
fn batch_entries_have_sizes() {
    let entries = vec![
        BatchEntry::new(b"a.b", b"xyz".to_vec()),
        BatchEntry::with_msg_id(b"c", b"id", Vec::new()),
    ];
    assert_eq!(tail_bytes(&entries, 8), 8 + 6 + 8 + 3);
    assert_eq!(tail_bytes(&Vec::new(), 8), 0);
}

#[test]
fn the_message_id_is_a_header() {
    let h = |k: &str, v: &str| (k.as_bytes().to_vec(), v.as_bytes().to_vec());
    let headers = vec![h("trace", "t"), h("msg-id", "one"), h("msg-id", "two")];
    assert_eq!(msg_id_of(&headers), b"one".to_vec());
    assert!(msg_id_of(&vec![h("Msg-Id", "x")]).is_empty());
}

#[test]
fn warnings_keep_their_distance() {
    let mut gate = WarnGate::new();
    let s = 1_000_000_000;
    assert!(!gate.warn_rate_limited(4 * s));
    assert!(gate.warn_rate_limited(6 * s));
    assert!(!gate.warn_rate_limited(10 * s));
    assert!(gate.warn_rate_limited(11 * s));
}

#[test]
fn a_failed_store_is_a_configuration_error() {
    match store_failed(StoreStep::Open, &StoreError::Closed) {
        ClientError::InvalidConfig(m) => assert_eq!(m, "ackstore open: ackstore: closed"),
        _ => panic!("expected InvalidConfig"),
    }
}

#[test]
fn a_failed_connection_is_abandoned() {
    assert!(matches!(first_connection(Ok(())), FirstConnection::Ready));
    assert!(matches!(
        first_connection(Err(ClientError::Timeout)),
        FirstConnection::Abandon(ClientError::Timeout)
    ));
}

#[test]
fn a_consumer_is_dropped_once_the_broker_says_so() {
    let mut subs = Subscriptions::new();
    subs.register(Registration {
        consumer_id: 7,
        stream_id: 1,
        fanout: false,
        dedup: None,
        sub_id: 1,
        filter: Vec::new(),
        frame: Vec::new(),
        channel: 10,
    });
    assert!(delete_consumer(&mut subs, 7, Err(ClientError::Timeout)).is_err());
    assert_eq!(subs.sizes(), (1, 1));
    let (body, dropped) = delete_consumer(&mut subs, 7, Ok(vec![1])).unwrap();
    assert_eq!((body, dropped), (vec![1], vec![10]));
    assert_eq!(subs.sizes(), (0, 0));
}
