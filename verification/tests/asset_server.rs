use arachne::asset::handle::HandleId;
use arachne::asset::server::{after_read, extension, no_loader_error, AssetState, AssetTracker, ReadOutcome};

#[test]
fn extension_after_last_dot() {
    assert_eq!(extension("textures/player.png"), "png");
    assert_eq!(extension("archive.tar.gz"), "gz");
    assert_eq!(extension("noext"), "noext");
    assert_eq!(extension("trailing."), "");
    assert_eq!(no_loader_error("xyz"), "no loader for extension: xyz");
}

#[test]
fn tracker_load_once() {
    let mut t = AssetTracker::new(1024);
    let id = HandleId::from_path("a.png");
    assert!(t.state(id).is_none());
    assert!(t.begin_load(id, "a.png"));
    assert_eq!(t.state(id), Some(&AssetState::Loading));
    assert!(!t.begin_load(id, "a.png"));
    let h = t.strong_handle::<u8>(id);
    assert_eq!(h.id(), id);
    assert_eq!(h.ref_count(), 1);
    let evicted = t.loaded(id, 64);
    assert!(evicted.is_empty());
    assert_eq!(t.state(id), Some(&AssetState::Loaded));
    assert!(t.is_cached(id));
    assert!(!t.begin_load(id, "a.png"));
}

#[test]
fn tracker_failure_and_retry() {
    let mut t = AssetTracker::new(1024);
    let id = HandleId::from_path("missing.png");
    assert!(t.begin_load(id, "missing.png"));
    t.failed(id, "file not found: missing.png".to_string());
    assert_eq!(t.state(id), Some(&AssetState::Failed("file not found: missing.png".to_string())));
    assert!(t.begin_load(id, "missing.png"));
    assert_eq!(t.state(id), Some(&AssetState::Loading));
}

#[test]
fn tracker_evicts_dropped_assets() {
    let mut t = AssetTracker::new(100);
    let a = HandleId::from_path("a.png");
    let b = HandleId::from_path("b.png");
    assert!(t.begin_load(a, "a.png"));
    let ha = t.strong_handle::<u8>(a);
    assert!(t.loaded(a, 64).is_empty());
    drop(ha);
    assert!(t.begin_load(b, "b.png"));
    let _hb = t.strong_handle::<u8>(b);
    let evicted = t.loaded(b, 64);
    assert_eq!(evicted, vec![a]);
    assert_eq!(t.state(a), Some(&AssetState::Unloaded));
    assert_eq!(t.state(b), Some(&AssetState::Loaded));
    assert!(!t.is_cached(a));
}

#[test]
fn after_read_decides_between_loader_and_failure() {
    assert!(matches!(after_read(None, true, "png"), ReadOutcome::Decode));
    match after_read(None, false, "xyz") {
        ReadOutcome::Fail(m) => assert_eq!(m, "no loader for extension: xyz"),
        ReadOutcome::Decode => panic!("no loader is registered"),
    }
    match after_read(Some("file not found: a.png".to_string()), true, "png") {
        ReadOutcome::Fail(m) => assert_eq!(m, "file not found: a.png"),
        ReadOutcome::Decode => panic!("the read failed"),
    }
}
