use arachne::asset::cache::LruCache;
use arachne::asset::handle::{new_ref_count, HandleId, RefCount};
use std::sync::atomic::Ordering;

#[test]
fn basic_insert_and_usage() {
    let mut cache = LruCache::new(1000);
    let rc = new_ref_count();
    cache.insert(HandleId(1), 400, rc.clone());
    assert_eq!(cache.usage(), 400);
    assert_eq!(cache.len(), 1);
    assert!(cache.contains(HandleId(1)));
}

#[test]
fn evict_lru_when_over_budget() {
    let mut cache = LruCache::new(1000);

    let rc1 = new_ref_count();
    let rc2 = new_ref_count();
    let rc3 = new_ref_count();

    cache.insert(HandleId(1), 400, rc1.clone());
    cache.insert(HandleId(2), 400, rc2.clone());
    cache.insert(HandleId(3), 400, rc3.clone());

    assert_eq!(cache.usage(), 1200);

    let evicted = cache.evict_if_needed();
    assert_eq!(evicted, vec![HandleId(1)]);
    assert_eq!(cache.usage(), 800);
    assert!(!cache.contains(HandleId(1)));
    assert!(cache.contains(HandleId(2)));
    assert!(cache.contains(HandleId(3)));
}

#[test]
fn eviction_order_respects_access() {
    let mut cache = LruCache::new(1000);

    let rc1 = new_ref_count();
    let rc2 = new_ref_count();
    let rc3 = new_ref_count();

    cache.insert(HandleId(1), 400, rc1.clone());
    cache.insert(HandleId(2), 400, rc2.clone());
    cache.insert(HandleId(3), 400, rc3.clone());

    cache.touch(HandleId(1));

    let evicted = cache.evict_if_needed();
    assert_eq!(evicted, vec![HandleId(2)]);
    assert!(cache.contains(HandleId(1)));
    assert!(!cache.contains(HandleId(2)));
    assert!(cache.contains(HandleId(3)));
}

#[test]
fn strong_handles_prevent_eviction() {
    let mut cache = LruCache::new(1000);

    let rc1 = new_ref_count();
    let rc2 = new_ref_count();
    let rc3 = new_ref_count();

    rc1.fetch_add(1, Ordering::Relaxed);

    cache.insert(HandleId(1), 400, rc1.clone());
    cache.insert(HandleId(2), 400, rc2.clone());
    cache.insert(HandleId(3), 400, rc3.clone());

    let evicted = cache.evict_if_needed();
    assert_eq!(evicted, vec![HandleId(2)]);
    assert!(cache.contains(HandleId(1)));
    assert!(!cache.contains(HandleId(2)));
    assert!(cache.contains(HandleId(3)));
}

#[test]
fn cannot_evict_all_in_use() {
    let mut cache = LruCache::new(100);

    let rc1 = new_ref_count();
    let rc2 = new_ref_count();

    rc1.fetch_add(1, Ordering::Relaxed);
    rc2.fetch_add(1, Ordering::Relaxed);

    cache.insert(HandleId(1), 200, rc1.clone());
    cache.insert(HandleId(2), 200, rc2.clone());

    let evicted = cache.evict_if_needed();
    assert!(evicted.is_empty());
    assert_eq!(cache.usage(), 400);
}

#[test]
fn evict_multiple_to_fit() {
    let mut cache = LruCache::new(500);

    let rcs: Vec<RefCount> = (0..5).map(|_| new_ref_count()).collect();
    for i in 0..5 {
        cache.insert(HandleId(i as u64), 200, rcs[i].clone());
    }
    let evicted = cache.evict_if_needed();
    assert_eq!(evicted.len(), 3);
    assert_eq!(evicted, vec![HandleId(0), HandleId(1), HandleId(2)]);
    assert_eq!(cache.usage(), 400);
}

#[test]
fn remove_explicit() {
    let mut cache = LruCache::new(1000);
    let rc = new_ref_count();
    cache.insert(HandleId(1), 500, rc.clone());
    assert_eq!(cache.usage(), 500);

    assert!(cache.remove(HandleId(1)));
    assert_eq!(cache.usage(), 0);
    assert!(!cache.contains(HandleId(1)));

    assert!(!cache.remove(HandleId(99)));
}

#[test]
fn duplicate_insert_is_touch() {
    let mut cache = LruCache::new(2000);
    let rc1 = new_ref_count();
    let rc2 = new_ref_count();

    cache.insert(HandleId(1), 100, rc1.clone());
    cache.insert(HandleId(2), 100, rc2.clone());

    cache.insert(HandleId(1), 100, rc1.clone());
    assert_eq!(cache.usage(), 200);
    assert_eq!(cache.len(), 2);
    assert_eq!(*cache.access_order().last().unwrap(), HandleId(1));
}

#[test]
fn evict_unreferenced_follows_flags() {
    let mut cache = LruCache::new(150);
    let rcs: Vec<RefCount> = (0..4).map(|_| new_ref_count()).collect();
    for i in 0..4 {
        cache.insert(HandleId(10 + i as u64), 100, rcs[i].clone());
    }
    // Usage 400 over a budget of 150: the unmarked entry 10 stays; 11, 12
    // and 13 go, and the usage falls to 300, 200, then 100.
    let evicted = cache.evict_unreferenced(&[false, true, true, true]);
    assert_eq!(evicted, vec![HandleId(11), HandleId(12), HandleId(13)]);
    assert_eq!(cache.usage(), 100);
    let order: Vec<HandleId> = cache.access_order().to_vec();
    assert_eq!(order, vec![HandleId(10)]);
    assert_eq!(cache.budget(), 150);
    assert!(!cache.is_empty());

    let mut small = LruCache::new(250);
    for i in 0..3 {
        small.insert(HandleId(i as u64), 100, new_ref_count());
    }
    // 300 over 250: the first marked entry, 1, goes and 200 fits.
    assert_eq!(small.evict_unreferenced(&[false, true, true]), vec![HandleId(1)]);
    assert_eq!(small.access_order().to_vec(), vec![HandleId(0), HandleId(2)]);
}

#[test]
fn remove_keeps_order_of_others() {
    let mut cache = LruCache::new(1000);
    for i in 0..4u64 {
        cache.insert(HandleId(i), 10, new_ref_count());
    }
    assert!(cache.remove(HandleId(1)));
    assert_eq!(cache.access_order().to_vec(), vec![HandleId(0), HandleId(2), HandleId(3)]);
    cache.touch(HandleId(0));
    assert_eq!(cache.access_order().to_vec(), vec![HandleId(2), HandleId(3), HandleId(0)]);
    cache.touch(HandleId(42));
    assert_eq!(cache.len(), 3);
    assert_eq!(cache.usage(), 30);
}
