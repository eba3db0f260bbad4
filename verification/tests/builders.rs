use arbitro_client::client::queue_consumer;
use arbitro_client::consumer_builder::ConsumerBuilder;
use arbitro_client::error::ClientError;
use arbitro_client::group::resolve_group;
use arbitro_client::policy::{
    AckPolicy, DeliverMode, DeliverPolicy, DiscardPolicy, JournalKind, RetentionPolicy,
};
use arbitro_client::queue::QueueOptions;
use arbitro_client::stream_builder::{StreamBuilder, MAX_NAME_LEN};

const BY_START_SEQ: u8 = 4;

fn invalid_text(err: ClientError) -> String {
    match err {
        ClientError::InvalidConfig(msg) => msg,
        other => panic!("expected InvalidConfig, got {other:?}"),
    }
}

#[test]
fn missing_ack_policy_is_rejected() {
    let err = ConsumerBuilder::new(b"c").validate().unwrap_err();
    assert!(invalid_text(err).contains("ack_policy"));
}

#[test]
fn max_inflight_with_ack_none_is_rejected() {
    let err = ConsumerBuilder::new(b"c")
        .ack_policy(AckPolicy::NoAck)
        .max_inflight(10)
        .validate()
        .unwrap_err();
    assert!(invalid_text(err).contains("max_inflight"));
}

#[test]
fn subject_inflight_with_ack_none_is_rejected() {
    let err = ConsumerBuilder::new(b"c")
        .ack_policy(AckPolicy::NoAck)
        .max_subject_inflight(b"foo.>", 1)
        .validate()
        .unwrap_err();
    assert!(invalid_text(err).contains("max_subject_inflight"));
}

#[test]
fn ack_wait_with_ack_none_is_rejected() {
    let err = ConsumerBuilder::new(b"c")
        .ack_policy(AckPolicy::NoAck)
        .ack_wait_ms(5_000)
        .validate()
        .unwrap_err();
    assert!(invalid_text(err).contains("ack_wait_ms"));
}

#[test]
fn by_start_seq_without_start_seq_is_rejected() {
    let err = ConsumerBuilder::new(b"c")
        .ack_policy(AckPolicy::Explicit)
        .deliver_policy(DeliverPolicy::ByStartSeq)
        .validate()
        .unwrap_err();
    assert!(invalid_text(err).contains("ByStartSeq"));
}

#[test]
fn explicit_with_full_config_validates() {
    ConsumerBuilder::new(b"c")
        .ack_policy(AckPolicy::Explicit)
        .filter(b">")
        .max_inflight(10_000)
        .max_subject_inflight(b"orders.basic.>", 1)
        .max_subject_inflight(b"orders.premium.>", 1)
        .ack_wait_ms(30_000)
        .validate()
        .expect("valid config must pass");
}

#[test]
fn ack_none_minimal_validates() {
    ConsumerBuilder::new(b"c")
        .ack_policy(AckPolicy::NoAck)
        .validate()
        .expect("fire-and-forget consumer must validate");
}

#[test]
fn unset_group_defaults_to_consumer_name() {
    let b = ConsumerBuilder::new(b"orders_worker").ack_policy(AckPolicy::Explicit);
    let (_, group) = b.validate().expect("valid");
    assert_eq!(group, b"orders_worker");
}

#[test]
fn explicit_group_wins_even_when_set_last() {
    let b = ConsumerBuilder::new(b"orders_worker")
        .ack_policy(AckPolicy::Explicit)
        .group(b"workers");
    let (_, group) = b.validate().expect("valid");
    assert_eq!(group, b"workers");
}

#[test]
fn consumer_builder_empty_group_and_name_fall_back_to_stream_name() {
    let b = ConsumerBuilder::new(b"")
        .ack_policy(AckPolicy::Explicit)
        .stream_name(b"orders");
    let (_, group) = b.validate().expect("valid");
    assert_eq!(group, b"orders");
}

#[test]
fn nothing_to_default_from_is_rejected() {
    let err = ConsumerBuilder::new(b"")
        .ack_policy(AckPolicy::Explicit)
        .validate()
        .unwrap_err();
    assert!(invalid_text(err).contains("queue group"));
}

#[test]
fn unset_deliver_mode_defaults_to_queue() {
    assert_eq!(ConsumerBuilder::new(b"c").deliver_mode, DeliverMode::Queue);
    assert_eq!(ConsumerBuilder::new(b"c").deliver_mode.as_u8(), 1);
}

#[test]
fn explicit_fanout_still_wins() {
    let b = ConsumerBuilder::new(b"c").deliver_mode(DeliverMode::Fanout);
    assert_eq!(b.deliver_mode, DeliverMode::Fanout);
    assert_eq!(b.deliver_mode.as_u8(), 0);
}

#[test]
fn defaulted_deliver_mode_reaches_the_wire_as_queue() {
    let req = ConsumerBuilder::new(b"orders_worker")
        .ack_policy(AckPolicy::Explicit)
        .request(7, BY_START_SEQ)
        .expect("valid");
    assert_eq!(req.deliver_mode, 1, "unset deliver_mode must be sent as Queue (1)");
}

#[test]
fn defaulted_group_reaches_the_wire_as_the_consumer_name() {
    let req = ConsumerBuilder::new(b"orders_worker")
        .ack_policy(AckPolicy::Explicit)
        .request(7, BY_START_SEQ)
        .expect("valid");
    assert_eq!(req.stream_id, 7);
    assert_eq!(req.name, b"orders_worker".to_vec());
    assert_eq!(
        req.group,
        b"orders_worker".to_vec(),
        "unset group must be sent as the consumer name, never empty"
    );
    assert!(!req.group.is_empty());
}

#[test]
fn a_request_carries_every_setting() {
    let req = ConsumerBuilder::new(b"w")
        .group(b"g")
        .filter(b"orders.>")
        .max_inflight(5)
        .ack_policy(AckPolicy::Explicit)
        .deliver_policy(DeliverPolicy::ByStartSeq)
        .deliver_mode(DeliverMode::Fanout)
        .ack_wait_ms(30_000)
        .start_seq(77)
        .max_subject_inflight(b"a.*", 2)
        .request(3, BY_START_SEQ)
        .unwrap();
    assert_eq!(req.group, b"g".to_vec());
    assert_eq!(req.subject, b"orders.>".to_vec());
    assert_eq!(req.max_inflight, 5);
    assert_eq!(req.ack_policy, AckPolicy::Explicit.as_u8());
    assert_eq!(req.deliver_policy, BY_START_SEQ);
    assert_eq!(req.deliver_mode, 0);
    assert_eq!(req.ack_wait_ms, 30_000);
    assert_eq!(req.start_seq, 77);
    assert_eq!(req.subject_limits[0].pattern, b"a.*".to_vec());
    assert_eq!(req.subject_limits[0].limit, 2);
}

#[test]
fn explicit_group_wins() {
    assert_eq!(resolve_group(b"workers", b"cname", b"sname").unwrap(), b"workers");
}

#[test]
fn empty_group_falls_back_to_consumer_name() {
    assert_eq!(resolve_group(b"", b"cname", b"sname").unwrap(), b"cname");
}

#[test]
fn group_empty_group_and_name_fall_back_to_stream_name() {
    assert_eq!(resolve_group(b"", b"", b"sname").unwrap(), b"sname");
}

#[test]
fn all_empty_is_rejected() {
    let err = resolve_group(b"", b"", b"").unwrap_err();
    assert!(invalid_text(err).contains("queue group"));
}

#[test]
fn defaults_are_the_permissive_ones() {
    let o = QueueOptions::new();
    assert!(o.filter.is_empty(), "no filter: the queue sees everything");
    assert_eq!(o.ack_wait_ms, 0, "0 defers to the broker default");
    assert_eq!(o.max_inflight, 0, "0 means unlimited in-flight");
    assert_eq!(o.deliver_policy, DeliverPolicy::All);
    assert_eq!(o.start_seq, 0);
    assert!(o.subject_limits.is_empty());
}

#[test]
fn options_are_a_reusable_value() {
    let base = QueueOptions::new().filter(b"orders.>");

    let mut slow = base.clone();
    slow = slow.ack_wait_ms(120_000);

    assert_eq!(base.ack_wait_ms, 0, "the base is untouched");
    assert_eq!(slow.ack_wait_ms, 120_000);
    assert_eq!(slow.filter, b"orders.>".to_vec(), "shared prefix survives");
}

#[test]
fn subject_limits_accumulate() {
    let o = QueueOptions::new()
        .max_subject_inflight(b"orders.basic.>", 1)
        .max_subject_inflight(b"orders.premium.>", 5);
    assert_eq!(o.subject_limits.len(), 2);
    assert_eq!(o.subject_limits[1].1, 5);
}

#[test]
fn a_queue_is_its_own_consumer_and_group() {
    let o = QueueOptions::new()
        .filter(b"orders.>")
        .ack_wait_ms(9)
        .max_inflight(2)
        .max_subject_inflight(b"orders.a.>", 1);
    let req = queue_consumer(4, b"billing", &o, BY_START_SEQ).unwrap();
    assert_eq!(req.stream_id, 4);
    assert_eq!(req.name, b"billing".to_vec());
    assert_eq!(req.group, b"billing".to_vec());
    assert!(req.subject.is_empty());
    assert_eq!(req.deliver_mode, 1);
    assert_eq!(req.ack_policy, AckPolicy::Explicit.as_u8());
    assert_eq!(req.ack_wait_ms, 9);
    assert_eq!(req.subject_limits.len(), 1);
    assert!(queue_consumer(4, b"", &o, BY_START_SEQ).is_err());
}

#[test]
fn defaults_match_the_proto_config() {
    let b = StreamBuilder::new(b"orders");
    assert_eq!(b.max_msgs, 0);
    assert_eq!(b.max_bytes, 0);
    assert_eq!(b.max_age_secs, 0);
    assert_eq!(b.replicas, 1);
    assert_eq!(b.journal_kind, JournalKind::Memory);
    assert_eq!(b.retention, RetentionPolicy::Limits);
    assert_eq!(b.discard, DiscardPolicy::Old);
}

#[test]
fn default_filter_captures_everything() {
    assert_eq!(StreamBuilder::new(b"orders").filter, b">");
}

#[test]
fn rejects_empty_name() {
    assert!(StreamBuilder::new(b"").validate().is_err());
}

#[test]
fn rejects_name_over_255_bytes() {
    let long = vec![b'a'; MAX_NAME_LEN + 1];
    assert!(StreamBuilder::new(&long).validate().is_err());
    let ok = vec![b'a'; MAX_NAME_LEN];
    assert!(StreamBuilder::new(&ok).validate().is_ok());
}

#[test]
fn rejects_non_identifier_name() {
    assert!(StreamBuilder::new(b"orders.eu").validate().is_err());
    assert!(StreamBuilder::new(b"orders eu").validate().is_err());
    assert!(StreamBuilder::new(b"orders_eu-2").validate().is_ok());
}

#[test]
fn rejects_empty_filter() {
    assert!(StreamBuilder::new(b"orders").filter(b"").validate().is_err());
}

#[test]
fn rejects_zero_replicas() {
    assert!(StreamBuilder::new(b"orders").replicas(0).validate().is_err());
}

#[test]
fn enums_encode_to_the_wire_values_the_broker_expects() {
    assert_eq!(JournalKind::Memory.as_u8(), 0);
    assert_eq!(JournalKind::Disk.as_u8(), 1);
    assert_eq!(JournalKind::Tolerant.as_u8(), 2);
    assert_eq!(RetentionPolicy::Limits.as_u8(), 0);
    assert_eq!(RetentionPolicy::Interest.as_u8(), 1);
    assert_eq!(RetentionPolicy::WorkQueue.as_u8(), 2);
    assert_eq!(DiscardPolicy::Old.as_u8(), 0);
    assert_eq!(DiscardPolicy::New.as_u8(), 1);
}

#[test]
fn a_stream_request_carries_every_setting() {
    let req = StreamBuilder::new(b"orders")
        .filter(b"orders.>")
        .max_msgs(1)
        .max_bytes(2)
        .max_age_secs(3)
        .replicas(4)
        .journal_kind(JournalKind::Disk)
        .retention(RetentionPolicy::WorkQueue)
        .discard(DiscardPolicy::New)
        .idempotency_window_ms(5)
        .request()
        .unwrap();
    assert_eq!(req.name, b"orders".to_vec());
    assert_eq!(req.filter, b"orders.>".to_vec());
    assert_eq!((req.max_msgs, req.max_bytes, req.max_age_secs), (1, 2, 3));
    assert_eq!(req.replicas, 4);
    assert_eq!((req.journal_kind, req.retention, req.discard), (1, 2, 1));
    assert_eq!(req.idempotency_window_ms, 5);
}
