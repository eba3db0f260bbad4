use arbitro_client::ackstore::dir::{
    default_dir, lock_outcome, prepare_dir, DirEnv, DirProbe, LockAttempt, Platform,
};
use arbitro_client::ackstore::store::StoreError;

fn env() -> DirEnv {
    DirEnv {
        override_dir: None,
        home: Some("/home/u".to_string()),
        xdg_state_home: None,
        local_app_data: None,
    }
}

#[test]
fn the_override_wins() {
    let mut e = env();
    e.override_dir = Some("/data/acks".to_string());
    assert_eq!(default_dir(&e, Platform::Unix).unwrap(), vec!["/data/acks"]);
    e.override_dir = Some(" \t".to_string());
    let parts = default_dir(&e, Platform::Unix).unwrap();
    assert_eq!(parts.join("/"), "/home/u/.local/state/arbitro/ackstore");
}

#[test]
fn each_platform_has_its_place() {
    let mut e = env();
    let mac = default_dir(&e, Platform::MacOs).unwrap();
    assert_eq!(mac.join("/"), "/home/u/Library/Application Support/arbitro/ackstore");
    e.xdg_state_home = Some("/state".to_string());
    assert_eq!(default_dir(&e, Platform::Unix).unwrap().join("/"), "/state/arbitro/ackstore");
    e.xdg_state_home = Some("relative".to_string());
    let unix = default_dir(&e, Platform::Unix).unwrap();
    assert_eq!(unix.join("/"), "/home/u/.local/state/arbitro/ackstore");
    e.local_app_data = Some("C:\\Local".to_string());
    let windows = default_dir(&e, Platform::Windows).unwrap();
    assert_eq!(windows.join("\\"), "C:\\Local\\arbitro\\ackstore");
}

#[test]
fn without_a_place_there_is_an_error() {
    let mut e = env();
    e.home = None;
    for p in [Platform::Unix, Platform::MacOs, Platform::Windows, Platform::Other] {
        assert!(matches!(default_dir(&e, p), Err(StoreError::NoDefaultDir(_))));
    }
}

#[test]
fn directories_are_probed() {
    assert!(prepare_dir("/d", DirProbe::IsDir).is_ok());
    assert!(prepare_dir("/d", DirProbe::Created).is_ok());
    match prepare_dir("/d", DirProbe::CannotCreate("denied".to_string())) {
        Err(StoreError::BadDir { path, reason }) => {
            assert_eq!(path, "/d");
            assert_eq!(reason, "cannot create directory: denied");
        }
        _ => panic!("expected an error"),
    }
    assert!(prepare_dir("/d", DirProbe::NotDir).is_err());
    assert!(prepare_dir("/d", DirProbe::CannotStat("x".to_string())).is_err());
}

#[test]
fn a_store_has_one_owner() {
    assert!(lock_outcome("/d", LockAttempt::Held).is_ok());
    match lock_outcome("/d", LockAttempt::WouldBlock) {
        Err(e) => {
            assert_eq!(e.message(), "ackstore: already open by another process: /d")
        }
        _ => panic!("expected an error"),
    }
    assert!(matches!(
        lock_outcome("/d", LockAttempt::Failed("x".to_string())),
        Err(StoreError::BadDir { .. })
    ));
}
