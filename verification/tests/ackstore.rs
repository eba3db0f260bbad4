use arbitro_client::ackstore::memory::MemoryStore;
use arbitro_client::ackstore::slot::SlotState;
use arbitro_client::ackstore::store::{slot_key, Store, StoreError, SyncNext};
use arbitro_client::ackstore::wal::Wal;
use arbitro_client::ackstore::wal_core::WalConfig;

const NOW: i64 = 1_000_000;

/// A log together with the bytes of its file.
struct Disk {
    file: Vec<u8>,
}

fn config() -> WalConfig {
    WalConfig::new("unused".to_string())
}

impl Disk {
    fn new() -> Disk {
        Disk { file: Vec::new() }
    }

    fn open_with(&mut self, cfg: WalConfig, now: i64) -> Wal {
        let (wal, keep) = Wal::open(cfg, &self.file, now).unwrap();
        self.file.truncate(keep);
        wal
    }

    fn open(&mut self) -> Wal {
        self.open_with(config(), NOW)
    }

    fn flush(&mut self, wal: &mut Wal) {
        let bytes = wal.core.take_pending();
        self.file.extend_from_slice(&bytes);
    }

    fn sync(&mut self, wal: &mut Wal) {
        self.flush(wal);
        match wal.sync(Ok(()), NOW).unwrap() {
            SyncNext::Done => self.flush(wal),
            SyncNext::Compact => self.compact(wal),
        }
    }

    fn compact(&mut self, wal: &mut Wal) {
        self.flush(wal);
        let image = wal.compact(&self.file, NOW).unwrap();
        wal.compacted(&image);
        self.file = image;
    }

    fn close(&mut self, wal: &mut Wal) {
        self.flush(wal);
        wal.close(Ok(())).unwrap();
    }
}

#[test]
fn basic_dedup() {
    let mut w = Disk::new().open();
    let s = w.slot("orders", "worker", NOW).unwrap();
    assert!(w.check_record(s, 1, NOW).unwrap(), "first is new");
    assert!(!w.check_record(s, 1, NOW).unwrap(), "redelivery is dup");
    assert!(w.check_record(s, 2, NOW).unwrap(), "2 is new");
}

#[test]
fn fresh_gate() {
    let mut w = Disk::new().open();
    let s = w.slot("s", "c", NOW).unwrap();
    assert!(w.fresh(s, 100), "fresh on empty");
    w.check_record(s, 50, NOW).unwrap();
    assert!(w.fresh(s, 51), "above max is fresh");
    assert!(!w.fresh(s, 50), "in-bounds needs check");
}

#[test]
fn consumer_recreate_same_name() {
    let mut disk = Disk::new();
    let mut w = disk.open();
    let s1 = w.slot("jobs", "worker", NOW).unwrap();
    assert!(w.check_record(s1, 100, NOW).unwrap());
    disk.sync(&mut w);
    let s2 = w.slot("jobs", "worker", NOW).unwrap();
    assert!(!w.check_record(s2, 100, NOW).unwrap(), "must dedup after recreate");
}

#[test]
fn consumer_recreate_different_name() {
    let mut w = Disk::new().open();
    let s1 = w.slot("jobs", "worker", NOW).unwrap();
    w.check_record(s1, 100, NOW).unwrap();
    let s2 = w.slot("jobs", "worker-v2", NOW).unwrap();
    assert!(w.check_record(s2, 100, NOW).unwrap(), "different name = fresh");
}

#[test]
fn same_seq_different_streams() {
    let mut w = Disk::new().open();
    let orders = w.slot("orders", "w", NOW).unwrap();
    w.check_record(orders, 42, NOW).unwrap();
    let pay = w.slot("payments", "w", NOW).unwrap();
    assert!(w.check_record(pay, 42, NOW).unwrap(), "seq is stream-scoped");
}

#[test]
fn crash_recovery() {
    let mut disk = Disk::new();
    {
        let mut w = disk.open();
        let s = w.slot("orders", "worker", NOW).unwrap();
        for seq in 1..=100 {
            w.check_record(s, seq, NOW).unwrap();
        }
        disk.sync(&mut w);
    }
    let mut w2 = disk.open();
    let s = w2.slot("orders", "worker", NOW).unwrap();
    for seq in 1..=100 {
        assert!(!w2.check_record(s, seq, NOW).unwrap(), "seq {seq} should survive");
    }
    assert!(w2.check_record(s, 101, NOW).unwrap(), "101 is new");
}

#[test]
fn confirm_survives_restart() {
    let mut disk = Disk::new();
    {
        let mut w = disk.open();
        let s = w.slot("s", "c", NOW).unwrap();
        w.check_record(s, 1, NOW).unwrap();
        w.check_record(s, 2, NOW).unwrap();
        w.check_record(s, 3, NOW).unwrap();
        w.confirm(s, 2, NOW).unwrap();
        disk.sync(&mut w);
        disk.close(&mut w);
    }
    let mut w2 = disk.open();
    let s = w2.slot("s", "c", NOW).unwrap();
    assert!(!w2.check_record(s, 1, NOW).unwrap(), "1 tracked");
    assert!(!w2.check_record(s, 3, NOW).unwrap(), "3 tracked");
    assert!(w2.check_record(s, 2, NOW).unwrap(), "2 confirmed, so fresh");
}

#[test]
fn ttl_expiry() {
    let mut cfg = config();
    cfg.ttl_ms = Some(1000);
    cfg.sweep_interval_ms = 60;
    let mut w = Disk::new().open_with(cfg, 1_000_000);
    let s = w.slot("s", "c", 1_000_000).unwrap();
    w.check_record(s, 1, 1_000_000).unwrap();
    let later = 1_000_000 + 2000;
    w.sweep(later);
    assert!(w.metrics().expired >= 1, "expected expiry");
    assert!(w.check_record(s, 1, later).unwrap(), "fresh after expiry");
}

#[test]
fn ttl_not_resurrected_on_restart() {
    let mut disk = Disk::new();
    {
        let mut w = disk.open();
        let s = w.slot("s", "c", 1_000_000).unwrap();
        w.check_record(s, 1, 1_000_000).unwrap();
        disk.sync(&mut w);
        disk.close(&mut w);
    }
    let later = 1_000_000 + 10_000_000;
    let mut cfg = config();
    cfg.ttl_ms = Some(1000);
    let mut w2 = disk.open_with(cfg, later);
    let s = w2.slot("s", "c", later).unwrap();
    assert!(w2.check_record(s, 1, later).unwrap(), "expired-on-restart is fresh");
}

#[test]
fn torn_tail_truncated() {
    let mut disk = Disk::new();
    {
        let mut w = disk.open();
        let s = w.slot("s", "c", NOW).unwrap();
        w.check_record(s, 1, NOW).unwrap();
        w.check_record(s, 2, NOW).unwrap();
        disk.sync(&mut w);
        disk.close(&mut w);
    }
    let whole = disk.file.len();
    disk.file.extend_from_slice(&[0xFF, 0xFF, 0x00]);

    let mut w2 = disk.open();
    assert_eq!(disk.file.len(), whole);
    let s = w2.slot("s", "c", NOW).unwrap();
    assert!(!w2.check_record(s, 1, NOW).unwrap(), "1 recovered");
    assert!(!w2.check_record(s, 2, NOW).unwrap(), "2 recovered");
    assert!(w2.check_record(s, 3, NOW).unwrap(), "write after recovery works");
    disk.sync(&mut w2);
    disk.close(&mut w2);
    let mut w3 = disk.open();
    let s = w3.slot("s", "c", NOW).unwrap();
    assert!(w3.seen(s, 3), "written behind the cut");
}

#[test]
fn corrupt_crc_truncated() {
    let mut disk = Disk::new();
    {
        let mut w = disk.open();
        let s = w.slot("s", "c", NOW).unwrap();
        w.check_record(s, 1, NOW).unwrap();
        w.check_record(s, 2, NOW).unwrap();
        w.check_record(s, 3, NOW).unwrap();
        disk.sync(&mut w);
        disk.close(&mut w);
    }
    let n = disk.file.len();
    disk.file[n - 6] ^= 0xFF;

    let mut w2 = disk.open();
    let s = w2.slot("s", "c", NOW).unwrap();
    assert!(!w2.check_record(s, 1, NOW).unwrap(), "pre-corruption 1 survives");
    assert!(w2.check_record(s, 3, NOW).unwrap(), "the damaged record is gone");
}

#[test]
fn snapshot_restore() {
    let mut disk = Disk::new();
    {
        let mut w = disk.open();
        let s = w.slot("s", "c", NOW).unwrap();
        for seq in 1..=50 {
            w.check_record(s, seq, NOW).unwrap();
        }
        w.snapshot(NOW).unwrap();
        for seq in 51..=60 {
            w.check_record(s, seq, NOW).unwrap();
        }
        w.confirm(s, 55, NOW).unwrap();
        disk.sync(&mut w);
        disk.close(&mut w);
    }
    let mut w2 = disk.open();
    let s = w2.slot("s", "c", NOW).unwrap();
    for seq in 1..=60 {
        let is_new = w2.check_record(s, seq, NOW).unwrap();
        if seq == 55 {
            assert!(is_new, "55 confirmed, so fresh");
        } else {
            assert!(!is_new, "seq {seq} survives snapshot");
        }
    }
}

#[test]
fn confirm_up_to() {
    let mut w = Disk::new().open();
    let s = w.slot("s", "c", NOW).unwrap();
    for seq in 1..=100 {
        w.check_record(s, seq, NOW).unwrap();
    }
    let removed = w.confirm_up_to(s, 50, NOW).unwrap();
    assert_eq!(removed, 50);
    for seq in 1..=50 {
        assert!(!w.seen(s, seq), "seq {seq} dropped");
    }
    for seq in 51..=100 {
        assert!(w.seen(s, seq), "seq {seq} kept");
    }
    assert_eq!(w.info(s).live, 50);
}

#[test]
fn confirm_up_to_survives_restart() {
    let mut disk = Disk::new();
    {
        let mut w = disk.open();
        let s = w.slot("s", "c", NOW).unwrap();
        for seq in 1..=100 {
            w.check_record(s, seq, NOW).unwrap();
        }
        w.confirm_up_to(s, 60, NOW).unwrap();
        disk.sync(&mut w);
        disk.close(&mut w);
    }
    let mut w2 = disk.open();
    let s = w2.slot("s", "c", NOW).unwrap();
    for seq in 1..=60 {
        assert!(w2.check_record(s, seq, NOW).unwrap(), "seq {seq} fresh after confirm");
    }
}

#[test]
fn compact_shrinks_file() {
    let mut disk = Disk::new();
    let mut w = disk.open();
    let s = w.slot("s", "c", NOW).unwrap();
    for seq in 1..=10_000 {
        w.check_record(s, seq, NOW).unwrap();
    }
    w.confirm_up_to(s, 9990, NOW).unwrap();
    disk.sync(&mut w);
    let before = w.metrics().file_size;
    assert_eq!(before, disk.file.len() as i64);
    disk.compact(&mut w);
    let after = w.metrics().file_size;
    assert_eq!(after, disk.file.len() as i64);
    assert!(after < before, "compaction shrinks: {before} to {after}");
    for seq in 9991..=10_000 {
        assert!(w.seen(s, seq), "seq {seq} survives compaction");
    }
    assert!(!w.seen(s, 5000), "confirmed 5000 not seen");
    assert!(w.check_record(s, 20000, NOW).unwrap(), "write after compaction");
}

#[test]
fn compact_survives_restart() {
    let mut disk = Disk::new();
    {
        let mut w = disk.open();
        let s = w.slot("orders", "worker", NOW).unwrap();
        for seq in 1..=500 {
            w.check_record(s, seq, NOW).unwrap();
        }
        w.confirm_up_to(s, 490, NOW).unwrap();
        disk.sync(&mut w);
        disk.compact(&mut w);
        disk.close(&mut w);
    }
    let mut w2 = disk.open();
    let s = w2.slot("orders", "worker", NOW).unwrap();
    for seq in 491..=500 {
        assert!(!w2.check_record(s, seq, NOW).unwrap(), "seq {seq} survives compact+restart");
    }
    assert!(w2.check_record(s, 100, NOW).unwrap(), "confirmed 100 fresh");
}

#[test]
fn auto_compaction() {
    let mut disk = Disk::new();
    let mut cfg = config();
    cfg.compact_at_bytes = 8 * 1024;
    let mut w = disk.open_with(cfg, NOW);
    let s = w.slot("s", "c", NOW).unwrap();
    for round in 0..20u64 {
        let base = round * 1000;
        for i in 0..1000 {
            w.check_record(s, base + i, NOW).unwrap();
        }
        w.confirm_up_to(s, base + 999, NOW).unwrap();
        disk.sync(&mut w);
    }
    let size = w.metrics().file_size;
    assert!(size <= 64 * 1024, "auto-compaction bounds file: {size}");
}

#[test]
fn out_of_order_record_still_seen() {
    let mut w = Disk::new().open();
    let s = w.slot("s", "c", NOW).unwrap();
    w.check_record(s, 101, NOW).unwrap();
    w.check_record(s, 100, NOW).unwrap();
    w.check_record(s, 102, NOW).unwrap();
    assert!(w.seen(s, 100), "100 recorded out of order must still be seen");
    assert!(w.seen(s, 101), "101 seen");
    assert!(w.seen(s, 102), "102 seen");
    assert!(!w.seen(s, 99), "99 never recorded");

    let mut m = MemoryStore::new(0);
    let ms = m.slot("s", "c", NOW).unwrap();
    m.check_record(ms, 101, NOW).unwrap();
    m.check_record(ms, 100, NOW).unwrap();
    assert!(m.seen(ms, 100), "memory: 100 out of order still seen");
    assert!(!m.seen(ms, 99), "memory: 99 never recorded");
}

#[test]
fn compact_empty_slot_then_record_survives_restart() {
    let mut disk = Disk::new();
    {
        let mut w = disk.open();
        let s = w.slot("jobs", "worker", NOW).unwrap();
        for seq in 1..=100 {
            w.check_record(s, seq, NOW).unwrap();
        }
        w.confirm_up_to(s, 100, NOW).unwrap();
        disk.sync(&mut w);
        disk.compact(&mut w);
        assert!(
            w.check_record(s, 200, NOW).unwrap(),
            "record after compaction on the now-empty slot"
        );
        disk.sync(&mut w);
        disk.close(&mut w);
    }
    let mut w2 = disk.open();
    let s = w2.slot("jobs", "worker", NOW).unwrap();
    assert!(
        !w2.check_record(s, 200, NOW).unwrap(),
        "post-compaction record must survive restart (dedup holds)"
    );
    assert!(w2.check_record(s, 50, NOW).unwrap(), "confirmed 50 is fresh again");
}

#[test]
fn concurrent_stress_with_restart() {
    let mut disk = Disk::new();
    {
        let mut w = disk.open();
        let s = w.slot("s", "c", NOW).unwrap();
        // Eight writers, one record each in turn.
        for i in 0..125u64 {
            for g in 0..8u64 {
                w.check_record(s, g * 125 + i, NOW).unwrap();
            }
        }
        disk.sync(&mut w);
        disk.close(&mut w);
    }
    let mut w2 = disk.open();
    let s = w2.slot("s", "c", NOW).unwrap();
    let mut missing = 0;
    for seq in 0..1000 {
        if w2.check_record(s, seq, NOW).unwrap() {
            missing += 1;
        }
    }
    assert_eq!(missing, 0, "no records lost across interleaved writes + restart");
}

#[test]
fn memory_backend_dedup() {
    let mut m = MemoryStore::new(0);
    let s = m.slot("s", "c", NOW).unwrap();
    assert!(m.check_record(s, 1, NOW).unwrap());
    assert!(!m.check_record(s, 1, NOW).unwrap());
    assert_eq!(m.confirm_up_to(s, 1, NOW).unwrap(), 1);
    assert!(m.check_record(s, 1, NOW).unwrap(), "fresh after confirm_up_to");
}

#[test]
fn a_closed_log_refuses_records() {
    let mut w = Disk::new().open();
    let s = w.slot("s", "c", NOW).unwrap();
    w.close(Ok(())).unwrap();
    assert!(matches!(w.check_record(s, 7, NOW), Err(StoreError::Closed)));
    assert!(matches!(w.check_record(s, 7, NOW), Err(StoreError::Closed)));
    assert!(!w.seen(s, 7), "a refused recording leaves no trace");
    assert!(matches!(w.record(s, 7, NOW), Err(StoreError::Closed)));
    assert!(matches!(w.confirm(s, 7, NOW), Err(StoreError::Closed)));
    assert!(matches!(w.confirm_up_to(s, 7, NOW), Err(StoreError::Closed)));
    assert!(matches!(w.slot("s", "c", NOW), Err(StoreError::Closed)));
    assert!(matches!(w.slot("s", "new", NOW), Err(StoreError::Closed)));
    assert!(matches!(w.delete_slot("s", "c", NOW), Err(StoreError::Closed)));
    assert!(matches!(w.snapshot(NOW), Err(StoreError::Closed)));
    assert!(matches!(w.restore(), Err(StoreError::Closed)));
    assert_eq!(w.list_slots().len(), 1);
    assert!(matches!(w.sync(Ok(()), NOW), Err(StoreError::Closed)));
    assert!(w.close(Ok(())).is_ok(), "closing twice is fine");
}

#[test]
fn file_errors_are_passed_on() {
    let mut w = Disk::new().open();
    match w.sync(Err("disk full".to_string()), NOW) {
        Err(StoreError::Io(e)) => assert_eq!(e, "disk full"),
        _ => panic!("expected the file's error"),
    }
    assert_eq!(w.metrics().sync_errors, 1);
}

#[test]
fn names_have_a_length_limit() {
    let mut w = Disk::new().open();
    let long = "x".repeat(65536);
    assert!(matches!(w.slot(&long, "c", NOW), Err(StoreError::NameTooLong)));
    assert!(matches!(w.slot("s", &long, NOW), Err(StoreError::NameTooLong)));
    assert!(w.slot(&"x".repeat(65535), "c", NOW).is_ok());
}

#[test]
fn deleting_a_slot_forgets_it() {
    let mut disk = Disk::new();
    let mut w = disk.open();
    let s = w.slot("s", "c", NOW).unwrap();
    w.check_record(s, 7, NOW).unwrap();
    assert!(w.slot_info("s", "c").is_some());
    w.delete_slot("s", "c", NOW).unwrap();
    assert!(w.slot_info("s", "c").is_none());
    assert!(matches!(w.delete_slot("s", "c", NOW), Err(StoreError::UnknownSlot)));
    disk.sync(&mut w);
    let mut w2 = disk.open();
    let s2 = w2.slot("s", "c", NOW).unwrap();
    assert!(!w2.seen(s2, 7));
}

#[test]
fn a_file_that_is_no_log_is_started_over() {
    let mut disk = Disk { file: b"something else".to_vec() };
    let mut w = disk.open();
    assert!(disk.file.is_empty());
    disk.flush(&mut w);
    assert_eq!(disk.file.len(), 8);
}

#[test]
fn the_oldest_record_leaves_a_full_slot() {
    let mut m = MemoryStore::new(2);
    let s = m.slot("s", "c", NOW).unwrap();
    for seq in [5, 6, 7] {
        m.check_record(s, seq, NOW).unwrap();
    }
    assert!(!m.seen(s, 5));
    assert!(m.seen(s, 6));
    assert!(m.seen(s, 7));
}

#[test]
fn a_closed_memory_store_refuses() {
    let mut m = MemoryStore::new(0);
    let s = m.slot("s", "c", NOW).unwrap();
    m.record(s, 1, NOW).unwrap();
    m.close(Ok(())).unwrap();
    assert!(matches!(m.check_record(s, 2, NOW), Err(StoreError::Closed)));
    assert!(matches!(m.confirm(s, 1, NOW), Err(StoreError::Closed)));
    assert!(matches!(m.confirm_up_to(s, 1, NOW), Err(StoreError::Closed)));
    assert!(matches!(m.slot("s", "c", NOW), Err(StoreError::Closed)));
    assert!(matches!(m.delete_slot("s", "c", NOW), Err(StoreError::Closed)));
    assert!(matches!(m.sync(Ok(()), NOW), Err(StoreError::Closed)));
    assert!(m.seen(s, 1));
}

#[test]
fn the_cap_holds_across_a_restart() {
    let cfg = || WalConfig { max_cap: 2, ..config() };
    let mut disk = Disk::new();
    let mut w = disk.open_with(cfg(), NOW);
    let s = w.slot("s", "c", NOW).unwrap();
    for seq in [5, 1, 3] {
        assert!(w.check_record(s, seq, NOW).unwrap());
    }
    assert!(!w.seen(s, 5) && w.seen(s, 1) && w.seen(s, 3));
    disk.sync(&mut w);
    disk.close(&mut w);
    let w2 = disk.open_with(cfg(), NOW);
    assert_eq!(w2.slot_info("s", "c").unwrap().live, 2);
    assert!(!w2.seen(s, 5) && w2.seen(s, 1) && w2.seen(s, 3));
    assert!(w2.core.pending.is_empty(), "nothing had to be left out");
}

#[test]
fn a_lower_cap_leaves_the_smallest_out() {
    let mut disk = Disk::new();
    let mut w = disk.open();
    let s = w.slot("s", "c", NOW).unwrap();
    for seq in 1..=5 {
        w.record(s, seq, NOW).unwrap();
    }
    disk.sync(&mut w);
    let mut w2 = disk.open_with(WalConfig { max_cap: 2, ..config() }, NOW);
    assert_eq!(w2.slot_info("s", "c").unwrap().live, 2);
    assert!(!w2.seen(s, 3) && w2.seen(s, 4) && w2.seen(s, 5));
    // What was left out is logged: it stays out without the cap, too.
    disk.sync(&mut w2);
    let w3 = disk.open();
    assert_eq!(w3.slot_info("s", "c").unwrap().live, 2);
    assert!(!w3.seen(s, 3) && w3.seen(s, 4) && w3.seen(s, 5));
}

#[test]
fn number_zero_is_a_number_like_any_other() {
    let mut disk = Disk::new();
    let mut w = disk.open();
    let s = w.slot("s", "c", NOW).unwrap();
    assert!(w.fresh(s, 0));
    assert!(w.check_record(s, 0, NOW).unwrap());
    assert!(!w.fresh(s, 0));
    assert!(w.seen(s, 0));
    assert!(!w.check_record(s, 0, NOW).unwrap());
    w.record(s, 5, NOW).unwrap();
    w.record(s, 9, NOW).unwrap();
    let info = w.slot_info("s", "c").unwrap();
    assert_eq!((info.live, info.min_seq, info.max_seq), (3, 0, 9));
    disk.sync(&mut w);
    let mut w2 = disk.open();
    assert!(w2.seen(s, 0) && w2.seen(s, 5) && w2.seen(s, 9));
    assert_eq!(w2.confirm_up_to(s, 0, NOW).unwrap(), 1);
    assert!(!w2.seen(s, 0) && w2.seen(s, 5));
}

#[test]
fn compacting_the_order_keeps_the_true_minimum() {
    let mut s = SlotState::new();
    for (seq, ts) in [(0, 10), (7, 15), (5, 20), (9, 30)] {
        s.insert(seq, ts, 100);
    }
    s.set.remove(&7);
    s.compact_fifo();
    assert_eq!(s.fifo, vec![0, 5, 9]);
    assert_eq!(s.min_seq, 0);
    assert_eq!(s.max_seq, 9);
}

#[test]
fn a_place_that_was_given_up_pushes_nothing_out() {
    let mut m = MemoryStore::new(1);
    let s = m.slot("s", "c", NOW).unwrap();
    assert!(m.check_record(s, 1, NOW).unwrap());
    m.confirm(s, 1, NOW).unwrap();
    assert!(m.check_record(s, 1, NOW).unwrap());
    assert_eq!(m.slot_info("s", "c").unwrap().live, 1);
    assert!(m.seen(s, 1));
}

#[test]
fn the_oldest_time_is_that_of_what_is_live() {
    let mut m = MemoryStore::new(2);
    let s = m.slot("s", "c", NOW).unwrap();
    m.record(s, 1, 100).unwrap();
    m.record(s, 2, 200).unwrap();
    assert_eq!(m.slot_info("s", "c").unwrap().oldest_ts_ms, 100);
    m.record(s, 3, 300).unwrap();
    assert_eq!(m.slot_info("s", "c").unwrap().oldest_ts_ms, 200);
    m.confirm(s, 2, 400).unwrap();
    assert_eq!(m.slot_info("s", "c").unwrap().oldest_ts_ms, 300);
    m.confirm(s, 3, 400).unwrap();
    assert_eq!(m.slot_info("s", "c").unwrap().oldest_ts_ms, 0);
}

#[test]
fn different_pairs_of_names_never_share_a_slot() {
    assert_eq!(slot_key("ab", "c"), "2:abc");
    assert_ne!(slot_key("ab", "c"), slot_key("a", "bc"));
    assert_ne!(slot_key("a\0b", "c"), slot_key("a", "b\0c"));
    assert_ne!(slot_key("1:", "x"), slot_key("1", ":x"));
    let mut w = Disk::new().open();
    let a = w.slot("a\0b", "c", NOW).unwrap();
    let b = w.slot("a", "b\0c", NOW).unwrap();
    assert_ne!(a, b);
    w.record(a, 1, NOW).unwrap();
    assert!(w.seen(a, 1) && !w.seen(b, 1));
}

#[test]
fn the_size_of_a_compacted_log_follows_from_what_is_live() {
    let mut disk = Disk::new();
    let mut w = disk.open();
    let s = w.slot("st", "con", NOW).unwrap();
    w.slot("x", "", NOW).unwrap();
    for seq in 1..=10 {
        w.record(s, seq, NOW).unwrap();
    }
    w.confirm_up_to(s, 7, NOW).unwrap();
    disk.compact(&mut w);
    assert_eq!(disk.file.len(), 8 + (25 + 5) + (41 + 8 * 3) + (25 + 1));
}

#[test]
fn error_texts() {
    assert_eq!(StoreError::Closed.message(), "ackstore: closed");
    assert_eq!(StoreError::Io("x".to_string()).message(), "ackstore: io: x");
    let bad = StoreError::BadDir { path: "/p".to_string(), reason: "why".to_string() };
    assert_eq!(bad.message(), "ackstore: bad directory /p: why");
}
