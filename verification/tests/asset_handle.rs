use arachne::asset::handle::{new_ref_count, strong_count, Handle, HandleId};
use std::collections::hash_map::DefaultHasher;
use std::hash::{Hash, Hasher};

struct DummyAsset;

#[test]
fn handle_id_from_path_deterministic() {
    let a = HandleId::from_path("textures/player.png");
    let b = HandleId::from_path("textures/player.png");
    assert_eq!(a, b);

    let c = HandleId::from_path("textures/enemy.png");
    assert_ne!(a, c);
}

#[test]
fn strong_handle_ref_count() {
    let rc = new_ref_count();
    assert_eq!(strong_count(&rc), 0);

    let h1: Handle<DummyAsset> = Handle::strong(HandleId(1), rc.clone());
    assert_eq!(strong_count(&rc), 1);
    assert!(h1.is_strong());
    assert_eq!(h1.ref_count(), 1);

    let h2 = h1.clone();
    assert_eq!(strong_count(&rc), 2);
    assert_eq!(h2.ref_count(), 2);

    drop(h2);
    assert_eq!(strong_count(&rc), 1);

    drop(h1);
    assert_eq!(strong_count(&rc), 0);
}

#[test]
fn weak_handle_does_not_affect_count() {
    let rc = new_ref_count();
    let h1: Handle<DummyAsset> = Handle::strong(HandleId(1), rc.clone());
    assert_eq!(strong_count(&rc), 1);

    let weak = h1.downgrade();
    assert!(weak.is_weak());
    assert_eq!(weak.ref_count(), 0);
    assert_eq!(strong_count(&rc), 1);

    let weak2 = weak.clone();
    assert_eq!(strong_count(&rc), 1);

    drop(weak);
    drop(weak2);
    assert_eq!(strong_count(&rc), 1);

    drop(h1);
    assert_eq!(strong_count(&rc), 0);
}

#[test]
fn multiple_strong_handles_track_correctly() {
    let rc = new_ref_count();
    let id = HandleId(42);

    let h1: Handle<DummyAsset> = Handle::strong(id, rc.clone());
    let h2: Handle<DummyAsset> = Handle::strong(id, rc.clone());
    let h3 = h1.clone();

    assert_eq!(strong_count(&rc), 3);

    drop(h1);
    assert_eq!(strong_count(&rc), 2);

    drop(h3);
    assert_eq!(strong_count(&rc), 1);

    drop(h2);
    assert_eq!(strong_count(&rc), 0);
}

#[test]
fn handle_preserves_id() {
    let id = HandleId::from_path("models/cube.obj");
    let rc = new_ref_count();
    let h: Handle<DummyAsset> = Handle::strong(id, rc.clone());
    assert_eq!(h.id(), id);

    let weak: Handle<DummyAsset> = Handle::weak(id);
    assert_eq!(weak.id(), id);
}

#[test]
fn from_path_hashes_like_str() {
    let mut hasher = DefaultHasher::new();
    "sounds/jump.wav".hash(&mut hasher);
    assert_eq!(HandleId::from_path("sounds/jump.wav"), HandleId(hasher.finish()));
}
