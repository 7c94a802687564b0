use arachne::ecs::entity::{Entity, EntityAllocator};

#[test]
fn allocate_and_check_alive() {
    let mut alloc = EntityAllocator::new();
    let e = alloc.allocate();
    assert!(alloc.is_alive(e));
    assert_eq!(e.index(), 0);
    assert_eq!(e.generation(), 0);
}

#[test]
fn deallocate_makes_dead() {
    let mut alloc = EntityAllocator::new();
    let e = alloc.allocate();
    assert!(alloc.deallocate(e));
    assert!(!alloc.is_alive(e));
}

#[test]
fn generation_increments_on_dealloc() {
    let mut alloc = EntityAllocator::new();
    let e1 = alloc.allocate();
    alloc.deallocate(e1);
    let e2 = alloc.allocate();
    assert_eq!(e1.index(), e2.index());
    assert_ne!(e1.generation(), e2.generation());
    assert_eq!(e2.generation(), 1);
    assert!(!alloc.is_alive(e1));
    assert!(alloc.is_alive(e2));
}

#[test]
fn double_deallocate_returns_false() {
    let mut alloc = EntityAllocator::new();
    let e = alloc.allocate();
    assert!(alloc.deallocate(e));
    assert!(!alloc.deallocate(e));
}

#[test]
fn live_handles_have_distinct_slots() {
    let mut alloc = EntityAllocator::new();
    let a = alloc.allocate();
    let b = alloc.allocate();
    let c = alloc.allocate();
    assert_ne!(a.index(), b.index());
    assert_ne!(b.index(), c.index());
    assert_eq!(alloc.alive_count(), 3);
    assert_eq!(alloc.total_slots(), 3);
    assert!(alloc.deallocate(b));
    assert_eq!(alloc.alive_count(), 2);
    let d = alloc.allocate();
    assert_eq!(d.index(), b.index());
    assert_eq!(d.generation(), b.generation() + 1);
    assert_eq!(alloc.total_slots(), 3);
}

#[test]
fn from_raw_keeps_parts() {
    let e = Entity::from_raw(7, 3);
    assert_eq!(e.index(), 7);
    assert_eq!(e.generation(), 3);
    let alloc = EntityAllocator::new();
    assert!(!alloc.is_alive(e));
}

#[test]
fn forged_handle_on_freed_slot_is_not_alive() {
    let mut alloc = EntityAllocator::new();
    let e = alloc.allocate();
    assert!(alloc.deallocate(e));
    // A handle naming the freed slot's current generation was never handed
    // out: it is not alive, and releasing it changes nothing.
    let forged = Entity::from_raw(e.index(), e.generation() + 1);
    assert!(!alloc.is_alive(forged));
    assert!(!alloc.deallocate(forged));
    assert_eq!(alloc.alive_count(), 0);
    let again = alloc.allocate();
    assert_eq!(again, forged);
    assert!(alloc.is_alive(again));
}
