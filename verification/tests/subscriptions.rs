use arbitro_client::state::matcher::Matcher;
use arbitro_client::state::subscriptions::{Registration, Subscriptions};

fn reg(consumer_id: u32, sub_id: u32, filter: &[u8], fanout: bool) -> Registration {
    Registration {
        consumer_id,
        stream_id: 1,
        fanout,
        dedup: None,
        sub_id,
        filter: filter.to_vec(),
        frame: b"frame".to_vec(),
        channel: u64::from(sub_id) * 10,
    }
}

#[test]
fn siblings_coexist_and_each_keeps_its_channel() {
    let mut s = Subscriptions::new();
    let a = s.register(reg(7, 1, b"orders.*", true));
    let b = s.register(reg(7, 2, b"payments.*", true));
    let c = s.register(reg(7, 3, b"", true));
    assert_eq!(s.sizes(), (3, 1), "three routes, one consumer");

    let d = s.route(3, b"orders.created").unwrap();
    assert_eq!(d.stream_id, 1);
    let ids: Vec<u32> = d.targets.iter().map(|x| x.sub_id).collect();
    assert_eq!(ids, vec![1, 3], "orders.* and the catch-all, not payments.*");
    let channels: Vec<u64> = d.targets.iter().map(|x| x.channel).collect();
    assert_eq!(channels, vec![10, 30]);

    // No registration took a channel away from a sibling.
    assert!(a.is_empty() && b.is_empty() && c.is_empty());
}

#[test]
fn queue_mode_delivers_only_to_the_named_subscription() {
    let mut s = Subscriptions::new();
    s.register(reg(7, 1, b"orders.*", false));
    s.register(reg(7, 2, b"", false));

    let d = s.route(2, b"orders.created").unwrap();
    assert_eq!(d.targets.iter().map(|x| x.sub_id).collect::<Vec<_>>(), vec![2]);
}

#[test]
fn removing_one_subscription_leaves_the_others() {
    let mut s = Subscriptions::new();
    s.register(reg(7, 1, b"a.*", true));
    s.register(reg(7, 2, b"b.*", true));

    s.remove(1);
    assert_eq!(s.sizes(), (1, 1));
    assert!(s.route(1, b"a.x").is_none());
    assert!(s.route(2, b"b.x").is_some());
}

#[test]
fn last_subscription_out_takes_the_consumer_with_it() {
    let mut s = Subscriptions::new();
    s.register(reg(7, 1, b"", true));
    s.remove(1);
    assert_eq!(s.sizes(), (0, 0), "no consumer left behind");
}

#[test]
fn dropping_a_consumer_erases_every_route_under_it() {
    let mut s = Subscriptions::new();
    s.register(reg(7, 1, b"a.*", true));
    s.register(reg(7, 2, b"b.*", true));
    s.register(reg(8, 3, b"", true));

    s.remove_consumer(7);
    assert_eq!(s.sizes(), (1, 1), "only consumer 8 survives");
    assert!(s.route(1, b"a.x").is_none());
    assert!(s.route(3, b"anything").is_some());
}

#[test]
fn re_registering_under_another_consumer_replaces_too() {
    let mut s = Subscriptions::new();
    s.register(reg(7, 1, b"a.*", true));
    let mut moved = reg(8, 1, b"b.*", true);
    moved.channel = 99;
    assert_eq!(s.register(moved), vec![10]);
    assert_eq!(s.sizes(), (1, 1), "consumer 7 has nothing left and is gone");
    assert_eq!(s.replay_frames().len(), 1);
    assert_eq!(s.route(1, b"b.x").unwrap().targets[0].channel, 99);

    s.register(reg(8, 2, b"c.*", true));
    s.register(reg(9, 2, b"d.*", true));
    assert_eq!(s.sizes(), (2, 2), "consumer 8 keeps its other subscription");
    assert!(s.route(2, b"c.x").unwrap().targets.is_empty());
    assert_eq!(s.route(1, b"b.x").unwrap().targets.len(), 1);
}

#[test]
fn re_registering_replaces_instead_of_accumulating() {
    let mut s = Subscriptions::new();
    s.register(reg(7, 1, b"a.*", true));
    let mut again = reg(7, 1, b"b.*", true);
    again.channel = 99;
    let dropped = s.register(again);
    assert_eq!(s.sizes(), (1, 1));

    // The replaced channel is handed back to be closed.
    assert_eq!(dropped, vec![10]);

    let d = s.route(1, b"b.x").unwrap();
    assert_eq!(d.targets.len(), 1, "the new filter is the live one");
    assert_eq!(d.targets[0].channel, 99);
    let d = s.route(1, b"a.x").unwrap();
    assert!(d.targets.is_empty(), "the old filter is gone");
}

#[test]
fn matcher_classifies_and_matches() {
    assert!(Matcher::new(b"").accepts(b"anything"));
    assert!(Matcher::new(b">").accepts(b"a.b.c"));
    assert!(Matcher::new(b"orders.created").accepts(b"orders.created"));
    assert!(!Matcher::new(b"orders.created").accepts(b"orders.updated"));
    assert!(Matcher::new(b"orders.*").accepts(b"orders.created"));
    assert!(!Matcher::new(b"orders.*").accepts(b"orders.a.b"));
    assert!(Matcher::new(b"orders.>").accepts(b"orders.a.b"));
    assert!(!Matcher::new(b"orders.*").accepts(b"payments.created"));
}

#[test]
fn unknown_subscription_routes_nowhere() {
    let s = Subscriptions::new();
    assert!(s.route(99, b"x").is_none());
}

#[test]
fn consumer_settings_and_replay_frames() {
    let mut s = Subscriptions::new();
    let mut first = reg(7, 1, b"", false);
    first.dedup = Some(4);
    s.register(first);
    s.register(reg(8, 2, b"", false));
    assert_eq!(s.dedup_of(7), Some(4));
    assert_eq!(s.dedup_of(8), None);
    assert_eq!(s.dedup_consumers(), vec![7]);
    assert_eq!(s.replay_frames(), vec![b"frame".to_vec(), b"frame".to_vec()]);
    s.set_fanout(7, true);
    s.register(Registration { dedup: Some(4), ..reg(7, 3, b"a", true) });
    let d = s.route(3, b"a").unwrap();
    assert_eq!(d.targets.len(), 2);
    assert_eq!(d.dedup, Some(4));
}
