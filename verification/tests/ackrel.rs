use arbitro_client::ackrel::pending::ConsumerPending;
use arbitro_client::ackrel::relay::AckRelay;
use arbitro_client::ackrel::seen::SeenCache;

#[test]
fn gate_cascade_rejects_out_of_range() {
    let mut relay = AckRelay::new();
    relay.record_deferred(0, 1, 100, 1_000);
    assert!(!relay.is_pending(0, 50));
    assert!(!relay.is_pending(0, 200));
    assert!(relay.is_pending(0, 100));
}

#[test]
fn purge_up_to_removes_le_cursor() {
    let mut relay = AckRelay::new();
    for seq in [10, 20, 30, 40] {
        relay.record_deferred(0, 1, seq, 1_000);
    }
    let removed = relay.purge_up_to(0, 20);
    assert_eq!(removed, 2);
    assert!(!relay.is_pending(0, 10));
    assert!(!relay.is_pending(0, 20));
    assert!(relay.is_pending(0, 30));
    assert!(relay.is_pending(0, 40));
}

#[test]
fn drain_is_ascending() {
    let mut relay = AckRelay::new();
    for seq in [40, 10, 30, 20] {
        relay.record_deferred(0, 1, seq, 1_000);
    }
    assert_eq!(relay.drain_ascending(0, 3), vec![10, 20, 30]);
}

#[test]
fn generation_change_purges() {
    let mut relay = AckRelay::new();
    relay.ensure(0, 1);
    relay.record_deferred(0, 1, 100, 1_000);
    assert!(relay.is_pending(0, 100));
    relay.ensure(0, 2);
    assert!(!relay.is_pending(0, 100));
}

#[test]
fn purge_reaches_the_largest_sequence() {
    let mut p = ConsumerPending::new(1);
    p.record(u64::MAX, 5);
    assert!(p.is_pending(u64::MAX));
    assert_eq!(p.purge_up_to(u64::MAX), 1);
    assert!(!p.is_pending(u64::MAX));
}

#[test]
fn relay_counts_and_ages() {
    let mut relay = AckRelay::new();
    relay.record_deferred(7, 1, 10, 1_000);
    relay.record_deferred(8, 1, 11, 2_000);
    assert_eq!(relay.hot_count(), 2);
    assert_eq!(relay.generation_of(7), 1);
    assert_eq!(relay.generation_of(99), 0);
    assert_eq!(relay.active_consumers(), vec![(7, 1), (8, 1)]);
    assert_eq!(relay.oldest_pending_age_ms(5_000), 4_000);
    assert_eq!(relay.expire(1_500, 5_000), 1);
    assert!(!relay.is_pending(7, 10));
    assert!(relay.is_pending(8, 11));
}

#[test]
fn the_age_is_that_of_what_is_left() {
    let mut relay = AckRelay::new();
    relay.record_deferred(0, 1, 10, 1_000);
    relay.record_deferred(0, 1, 20, 5_000);
    assert_eq!(relay.oldest_pending_age_ms(6_000), 5_000);
    assert!(!relay.record_deferred(0, 1, 20, 5_500), "known: its time stays");
    assert_eq!(relay.purge_up_to(0, 10), 1);
    assert_eq!(relay.oldest_pending_age_ms(6_000), 1_000);
    assert_eq!(relay.expire(4_999, 6_000), 0);
    assert_eq!(relay.expire(5_000, 6_000), 1);
    assert_eq!(relay.oldest_pending_age_ms(6_000), 0);
}

#[test]
fn the_gauge_moves_by_what_the_calls_return() {
    let mut relay = AckRelay::new();
    for seq in [1, 2, 3, 4] {
        assert!(relay.record_deferred(3, 1, seq, 100 * seq));
    }
    assert!(relay.record_deferred(4, 1, 1, 900));
    assert_eq!(relay.hot_count(), 5);
    assert_eq!(relay.purge_up_to(3, 2), 2);
    assert_eq!(relay.hot_count(), 3);
    assert_eq!(relay.expire(300, 1_000), 2);
    assert_eq!(relay.hot_count(), 1);
}

#[test]
fn seen_cache_evicts_the_oldest_pair() {
    let mut s = SeenCache::with_cap(2);
    assert!(s.insert_check(1, 1));
    assert!(!s.insert_check(1, 1));
    assert!(s.insert_check(2, 1));
    assert!(s.insert_check(1, 2));
    assert_eq!(s.len(), 2);
    assert!(s.insert_check(1, 1), "the oldest pair was forgotten");
    assert!(!s.insert_check(1, 2));
}
