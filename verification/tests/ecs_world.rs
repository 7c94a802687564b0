use arachne::ecs::world::World;

fn bytes(v: u32) -> Vec<u8> {
    v.to_le_bytes().to_vec()
}

#[test]
fn spawn_get_and_count() {
    let mut world = World::new();
    let pos = world.register_component(10, 4, 4, "Position".to_string());
    let vel = world.register_component(20, 4, 4, "Velocity".to_string());
    assert_eq!(world.register_component(10, 4, 4, "Position".to_string()), pos);
    let a = world.spawn(&[pos, vel], vec![bytes(1), bytes(2)]);
    let b = world.spawn(&[pos], vec![bytes(3)]);
    assert_eq!(world.entity_count(), 2);
    assert!(world.is_alive(a) && world.is_alive(b));
    assert_eq!(world.get(a, pos), Some(&bytes(1)));
    assert_eq!(world.get(a, vel), Some(&bytes(2)));
    assert_eq!(world.get(b, pos), Some(&bytes(3)));
    assert_eq!(world.get(b, vel), None);
    // Same component set, same archetype.
    let c = world.spawn(&[pos, vel], vec![bytes(5), bytes(6)]);
    assert_eq!(world.location(a).unwrap().archetype_id, world.location(c).unwrap().archetype_id);
    assert_eq!(world.location(c).unwrap().row, 1);
}

#[test]
fn despawn_moves_the_last_row_and_keeps_other_components() {
    let mut world = World::new();
    let pos = world.register_component(1, 4, 4, "P".to_string());
    let e0 = world.spawn(&[pos], vec![bytes(100)]);
    let e1 = world.spawn(&[pos], vec![bytes(101)]);
    let e2 = world.spawn(&[pos], vec![bytes(102)]);
    assert!(world.despawn(e0));
    assert!(!world.is_alive(e0));
    assert!(!world.despawn(e0));
    assert_eq!(world.entity_count(), 2);
    assert_eq!(world.get(e0, pos), None);
    assert_eq!(world.location(e2).unwrap().row, 0);
    assert_eq!(world.get(e2, pos), Some(&bytes(102)));
    assert_eq!(world.get(e1, pos), Some(&bytes(101)));
    // The freed slot comes back with the next generation.
    let e3 = world.spawn(&[pos], vec![bytes(103)]);
    assert_eq!(e3.index(), e0.index());
    assert_eq!(e3.generation(), e0.generation() + 1);
    assert_eq!(world.get(e3, pos), Some(&bytes(103)));
    assert_eq!(world.get(e0, pos), None);
}

#[test]
fn insert_and_remove_components_move_between_archetypes() {
    let mut world = World::new();
    let a = world.register_component(1, 4, 4, "A".to_string());
    let b = world.register_component(2, 2, 2, "B".to_string());
    let c = world.register_component(3, 1, 1, "C".to_string());
    let e = world.spawn(&[a, c], vec![bytes(7), vec![9]]);
    let other = world.spawn(&[a, c], vec![bytes(8), vec![10]]);
    world.insert_component(e, b, vec![1, 2]);
    assert_eq!(world.get(e, a), Some(&bytes(7)));
    assert_eq!(world.get(e, b), Some(&vec![1, 2]));
    assert_eq!(world.get(e, c), Some(&vec![9]));
    assert_eq!(world.get(other, a), Some(&bytes(8)));
    assert_eq!(world.location(other).unwrap().row, 0);
    // Overwrite in place.
    let before = world.location(e).unwrap();
    world.insert_component(e, b, vec![3, 4]);
    assert_eq!(world.location(e).unwrap(), before);
    assert_eq!(world.get(e, b), Some(&vec![3, 4]));
    // Remove.
    assert_eq!(world.remove_component(e, a), Some(bytes(7)));
    assert_eq!(world.get(e, a), None);
    assert_eq!(world.get(e, b), Some(&vec![3, 4]));
    assert_eq!(world.get(e, c), Some(&vec![9]));
    assert_eq!(world.remove_component(e, a), None);
    assert_eq!(world.entity_count(), 2);
    // Back to {a, c}: the archetype made first is reused.
    world.insert_component(e, a, bytes(11));
    assert_eq!(world.remove_component(e, b), Some(vec![3, 4]));
    assert_eq!(world.location(e).unwrap().archetype_id, world.location(other).unwrap().archetype_id);
    assert_eq!(world.get(e, a), Some(&bytes(11)));
}

#[test]
fn entity_without_components() {
    let mut world = World::new();
    let a = world.register_component(1, 4, 4, "A".to_string());
    let e = world.spawn(&[], vec![]);
    assert_eq!(world.get(e, a), None);
    world.insert_component(e, a, bytes(5));
    assert_eq!(world.get(e, a), Some(&bytes(5)));
    assert!(world.despawn(e));
    assert_eq!(world.entity_count(), 0);
}

fn score(record: &[u8]) -> u32 {
    u32::from_le_bytes([record[0], record[1], record[2], record[3]])
}

#[test]
fn resource_insert_read_mutate_remove() {
    const SCORE: u64 = 0x5c0e;
    let mut world = World::new();
    world.insert_resource(SCORE, bytes(0));

    assert_eq!(score(world.get_resource(SCORE)), 0);

    *world.get_resource_mut(SCORE) = bytes(42);
    assert_eq!(score(world.get_resource(SCORE)), 42);

    let removed = world.remove_resource(SCORE);
    assert_eq!(removed, Some(bytes(42)));
    assert!(!world.has_resource(SCORE));
}

#[test]
fn resources_are_kept_apart_by_key() {
    let mut world = World::new();
    world.insert_resource(1, bytes(10));
    world.insert_resource(2, bytes(20));
    world.insert_resource(1, bytes(11));
    assert_eq!(score(world.get_resource(1)), 11);
    assert_eq!(score(world.get_resource(2)), 20);
    assert_eq!(world.remove_resource(3), None);
    world.get_resource_mut(2)[0] = 21;
    assert_eq!(score(world.get_resource(2)), 21);
    assert!(world.has_resource(1) && world.has_resource(2));
}

#[test]
fn events_write_read_swap() {
    const MY_EVENT: u64 = 0xe7;
    let mut world = World::new();
    world.add_event(MY_EVENT);

    // Write 3 events.
    world.events_mut().get_mut(MY_EVENT).send(bytes(1));
    world.events_mut().get_mut(MY_EVENT).send(bytes(2));
    world.events_mut().get_mut(MY_EVENT).send(bytes(3));

    // Swap so they become readable.
    world.events_mut().swap_all();

    // Reader sees all 3.
    let events = world.events().get(MY_EVENT).read();
    assert_eq!(events.len(), 3);
    assert_eq!(events[0], bytes(1));
    assert_eq!(events[1], bytes(2));
    assert_eq!(events[2], bytes(3));

    // Another reader sees the same events.
    let events2 = world.events().get(MY_EVENT).read();
    assert_eq!(events2.len(), 3);

    // Swap again (next frame). No new events written.
    world.events_mut().swap_all();

    // Reader now sees 0.
    let events = world.events().get(MY_EVENT).read();
    assert_eq!(events.len(), 0);
}

#[test]
fn add_event_twice_keeps_the_queue() {
    let mut world = World::new();
    world.add_event(5);
    world.events_mut().get_mut(5).send(bytes(9));
    world.add_event(5);
    assert!(world.events().contains(5));
    assert!(!world.events().contains(6));
    world.events_mut().swap_all();
    assert_eq!(world.events().get(5).read(), &[bytes(9)][..]);
}
