use arbitro_client::client::SHORT_STREAM_ID;
use arbitro_client::consume::message::decode_reply_to;
use arbitro_client::cron::{CronBuilder, CronState, Fire};
use arbitro_client::error::{ClientError, ErrorCode};
use arbitro_client::service::mux::{begin_request, finish_request, ReplyEnd, ReplyMux, StreamCache};
use arbitro_client::service::names::{
    reply_filter, reply_name, stream_filter, stream_name, worker_filter, worker_name,
    write_method_subject, write_reply_prefix, write_reply_subject,
};
use arbitro_client::service::plan::ServiceBuilder;
use arbitro_client::service::handlers::Handlers;
use arbitro_client::service::route::{answer, reply_for, Request, ServiceAnswer};
use arbitro_client::text::{parse_u64, push_decimal, push_hex};

#[test]
fn names_and_subjects() {
    assert_eq!(write_method_subject("pay", b"charge"), b"_svc.pay.m.charge".to_vec());
    assert_eq!(write_reply_prefix("pay", 42), b"_svc.pay._r.42.".to_vec());
    assert_eq!(write_reply_subject("pay", 42, 7), b"_svc.pay._r.42.7".to_vec());
    assert_eq!(stream_filter("pay"), b"_svc.pay.>".to_vec());
    assert_eq!(worker_filter("pay"), b"_svc.pay.m.>".to_vec());
    assert_eq!(reply_filter("pay", 42), b"_svc.pay._r.42.>".to_vec());
    assert_eq!(stream_name("pay"), b"_svc-pay".to_vec());
    assert_eq!(worker_name("pay"), b"_svc-pay-worker".to_vec());
    assert_eq!(reply_name("pay", 42), b"_svc-pay-reply-42".to_vec());
}

#[test]
fn a_reply_finds_its_request() {
    let prefix = write_reply_prefix("pay", 42);
    let subject = write_reply_subject("pay", 42, u64::MAX);
    assert_eq!(reply_for(&prefix, &subject), Some(u64::MAX));
    assert_eq!(reply_for(&prefix, &write_reply_subject("pay", 43, 1)), None);
    assert_eq!(reply_for(&prefix, b"_svc.pay._r.42.x"), None);
}

#[test]
fn a_request_says_where_its_reply_goes() {
    let mut mux: ReplyMux<u32> = ReplyMux::new();
    let out = begin_request(&mut mux, 5, "pay", 3, 42, "stock", b"reserve");
    assert_eq!(out.subject, b"_svc.stock.m.reserve".to_vec());
    let (stream, subject) = decode_reply_to(&out.reply_to).unwrap();
    assert_eq!(stream, 3);
    assert_eq!(reply_for(&write_reply_prefix("pay", 42), subject), Some(out.corr));
    assert_eq!(mux.complete(out.corr), Some(5));
    assert_eq!(mux.complete(out.corr), None, "a reply is handed out once");
}

#[test]
fn requests_end_in_three_ways() {
    let mut mux: ReplyMux<u32> = ReplyMux::new();
    let a = begin_request(&mut mux, 1, "pay", 3, 42, "stock", b"x").corr;
    assert_eq!(finish_request(&mut mux, a, ReplyEnd::Data(b"ok".to_vec())).unwrap(), b"ok".to_vec());
    let b = begin_request(&mut mux, 1, "pay", 3, 42, "stock", b"x").corr;
    assert!(matches!(finish_request(&mut mux, b, ReplyEnd::TimedOut), Err(ClientError::Timeout)));
    assert_eq!(mux.complete(b), None, "a late reply finds nobody");
    let c = begin_request(&mut mux, 1, "pay", 3, 42, "stock", b"x").corr;
    assert!(matches!(
        finish_request(&mut mux, c, ReplyEnd::Dropped),
        Err(ClientError::Timeout)
    ));
}

#[test]
fn stream_ids_are_remembered() {
    let mut cache = StreamCache::new("pay", 3);
    assert_eq!(cache.get("pay"), Some(3));
    assert_eq!(cache.get("stock"), None);
    cache.insert("stock", 8);
    assert_eq!(cache.get("stock"), Some(8));
    cache.insert("stock", 9);
    assert_eq!(cache.get("stock"), Some(9));
    assert_eq!(cache.get("pay"), Some(3));
}

fn request(subject: &[u8]) -> Request {
    Request {
        subject: subject.to_vec(),
        payload: b"p".to_vec(),
        has_reply: true,
        seq: 1,
        consumer_id: 2,
    }
}

#[test]
fn the_method_is_what_follows_the_prefix() {
    assert_eq!(request(b"_svc.pay.m.charge").method("pay"), Some(&b"charge"[..]));
    assert_eq!(request(b"_svc.pay.m.").method("pay"), None);
    assert_eq!(request(b"_svc.other.m.charge").method("pay"), None);
}

#[test]
fn the_first_fitting_handler_is_taken() {
    let mut h: Handlers<&str> = Handlers::new();
    h.insert(b"a.b".to_vec(), "narrow");
    h.insert(b"a.".to_vec(), "wide");
    assert_eq!(h.find(b"a.b.c"), Some(&"narrow"));
    assert_eq!(h.find(b"a.c"), Some(&"wide"));
    assert_eq!(h.find(b"b"), None);
}

#[test]
fn a_stopped_handler_gets_no_requests() {
    let mut h: Handlers<u8> = Handlers::new();
    let first = h.insert(b"m.pay".to_vec(), 1);
    let second = h.insert(b"m.".to_vec(), 2);
    let third = h.insert(b"m.ship".to_vec(), 3);
    assert_ne!(first, second);
    assert_eq!(h.remove(first), Some(1));
    assert_eq!(h.remove(first), None, "it is gone");
    assert_eq!(h.find(b"m.pay"), Some(&2), "the next one that fits");
    assert_eq!(h.remove(second), Some(2));
    assert_eq!(h.find(b"m.pay"), None);
    assert_eq!(h.find(b"m.ship"), Some(&3), "the others stay");
    assert_eq!(h.remove(third), Some(3));
    assert_eq!(h.find(b"m.ship"), None);
}

#[test]
fn how_requests_are_settled() {
    let done = Some(Ok(b"out".to_vec()));
    assert!(matches!(answer(true, done.clone()), ServiceAnswer::Ack(Some(b)) if b == b"out"));
    assert!(matches!(answer(false, done), ServiceAnswer::Ack(None)));
    assert!(matches!(answer(true, Some(Err(()))), ServiceAnswer::Nack));
}

#[test]
fn a_service_sets_up_its_stream_and_consumers() {
    let b = ServiceBuilder::new("pay").max_inflight(16);
    let stream = b.stream_request();
    assert_eq!(stream.name, b"_svc-pay".to_vec());
    assert_eq!(stream.filter, b"_svc.pay.>".to_vec());
    assert_eq!(stream.max_age_secs, 3600);
    let worker = b.worker_request(3);
    assert_eq!(worker.subject, b"_svc.pay.m.>".to_vec());
    assert_eq!(worker.deliver_mode, 1, "instances share the calls");
    assert_eq!(worker.max_inflight, 16);
    assert_eq!(worker.ack_wait_ms, 30_000);
    let reply = b.reply_request(3, 42);
    assert_eq!(reply.subject, b"_svc.pay._r.42.>".to_vec());
    assert_eq!(reply.deliver_mode, 0);
    assert!(!reply.group.is_empty());
}

#[test]
fn cron_jobs_need_a_schedule() {
    assert!(CronBuilder::new(b"tick").body().is_err());
    let body = CronBuilder::new(b"tick")
        .every(b"*/5 * * * *")
        .tz(b"Europe/Madrid")
        .timeout_ms(10)
        .overlap(true)
        .body()
        .unwrap();
    assert_eq!(body.name, "tick");
    assert_eq!(body.every, "*/5 * * * *");
    assert_eq!(body.tz, Some("Europe/Madrid".to_string()));
    assert_eq!(body.timeout_ms, 10);
    assert!(body.overlap);
}

#[test]
fn names_that_are_no_text_are_mended() {
    let body = CronBuilder::new(b"a\xFFb").every(b"@daily").body().unwrap();
    assert_eq!(body.name, "a\u{FFFD}b");
}

#[test]
fn cron_jobs_fire_by_name() {
    let body = |name: &[u8]| CronBuilder::new(name).every(b"@daily").body().unwrap();
    let mut s: CronState<u32> = CronState::new();
    s.register(b"a", body(b"a"), 1);
    s.register(b"b", body(b"b"), 2);
    s.register(b"a", body(b"a"), 3);
    assert_eq!(s.all_configs().len(), 2);
    match s.fire(b"a", 99, 4) {
        Fire::Run { index, ctx } => {
            assert_eq!(s.entries[index].handler, 3, "registered anew");
            assert_eq!((ctx.name.as_str(), ctx.fire_time_ms, ctx.fire_count), ("a", 99, 4));
        }
        Fire::Unknown => panic!("expected a run"),
    }
    s.remove(b"a");
    assert!(matches!(s.fire(b"a", 1, 1), Fire::Unknown));
    assert!(s.get_handler(b"b").is_some());
}

#[test]
fn numbers_in_text() {
    let mut s = String::from("n=");
    push_decimal(&mut s, 0);
    s.push(' ');
    push_decimal(&mut s, u64::MAX);
    s.push(' ');
    push_hex(&mut s, 0x2A, 4);
    assert_eq!(s, "n=0 18446744073709551615 002a");
    assert_eq!(parse_u64(b"18446744073709551615"), Some(u64::MAX));
    assert_eq!(parse_u64(b"18446744073709551616"), None);
    assert_eq!(parse_u64(b""), None);
    assert_eq!(parse_u64(b"1x"), None);
}

#[test]
fn what_errors_say() {
    assert!(ClientError::Timeout.message().contains("time"));
    let unknown = ClientError::BrokerUnknown(0x0A);
    assert!(unknown.message().contains("0x000a"));
    let known = ClientError::from_wire_code(3, Some(ErrorCode::StreamNotFound));
    assert!(matches!(known, ClientError::Broker { code: ErrorCode::StreamNotFound }));
    assert!(known.message().contains("StreamNotFound"));
    assert_eq!(
        ClientError::InvalidConfig(SHORT_STREAM_ID.to_string()).message(),
        "invalid config: broker reply shorter than expected u64 stream_id"
    );
}
