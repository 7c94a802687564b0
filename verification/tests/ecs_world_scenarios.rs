use arachne::ecs::change_detection::TickFilter;
use arachne::ecs::component::ComponentId;
use arachne::ecs::entity::Entity;
use arachne::ecs::world::World;
use std::collections::HashSet;

/// The component types of these scenarios, registered in one world.
struct Types {
    position: ComponentId,
    velocity: ComponentId,
    health: ComponentId,
    dead: ComponentId,
    a: ComponentId,
}

fn register(world: &mut World) -> Types {
    Types {
        position: world.register_component(1, 8, 4, "Position".to_string()),
        velocity: world.register_component(2, 8, 4, "Velocity".to_string()),
        health: world.register_component(3, 4, 4, "Health".to_string()),
        dead: world.register_component(4, 0, 1, "Dead".to_string()),
        a: world.register_component(5, 4, 4, "A".to_string()),
    }
}

fn xy(x: f32, y: f32) -> Vec<u8> {
    let mut v = x.to_le_bytes().to_vec();
    v.extend_from_slice(&y.to_le_bytes());
    v
}

fn health(h: i32) -> Vec<u8> {
    h.to_le_bytes().to_vec()
}

fn a(v: u32) -> Vec<u8> {
    v.to_le_bytes().to_vec()
}

#[test]
fn archetype_edge_add_component() {
    let mut world = World::new();
    let t = register(&mut world);
    let e = world.spawn(&[t.position, t.velocity], vec![xy(1.0, 2.0), xy(0.0, 0.0)]);
    world.insert_component(e, t.health, health(100));

    assert_eq!(world.get(e, t.position), Some(&xy(1.0, 2.0)));
    assert_eq!(world.get(e, t.velocity), Some(&xy(0.0, 0.0)));
    assert_eq!(world.get(e, t.health), Some(&health(100)));
}

#[test]
fn archetype_edge_remove_component() {
    let mut world = World::new();
    let t = register(&mut world);
    let e = world.spawn(&[t.position, t.velocity], vec![xy(1.0, 2.0), xy(3.0, 4.0)]);
    let removed = world.remove_component(e, t.velocity);
    assert_eq!(removed, Some(xy(3.0, 4.0)));
    assert_eq!(world.get(e, t.position), Some(&xy(1.0, 2.0)));
    assert!(world.get(e, t.velocity).is_none());
}

#[test]
fn world_spawn_different_component_sets() {
    let mut world = World::new();
    let t = register(&mut world);
    let e1 = world.spawn(&[t.position], vec![xy(0.0, 0.0)]);
    let e2 = world.spawn(&[t.position, t.velocity], vec![xy(1.0, 1.0), xy(2.0, 2.0)]);
    let e3 = world.spawn(&[t.position, t.health], vec![xy(3.0, 3.0), health(50)]);
    let e4 = world.spawn(&[t.velocity, t.health], vec![xy(4.0, 4.0), health(100)]);
    let e5 = world.spawn(
        &[t.position, t.velocity, t.health],
        vec![xy(5.0, 5.0), xy(5.0, 5.0), health(200)],
    );

    assert_eq!(world.entity_count(), 5);
    assert_eq!(world.get(e1, t.position), Some(&xy(0.0, 0.0)));
    assert_eq!(world.get(e2, t.velocity), Some(&xy(2.0, 2.0)));
    assert_eq!(world.get(e3, t.health), Some(&health(50)));
    assert!(world.get(e4, t.position).is_none());
    assert_eq!(world.get(e5, t.health), Some(&health(200)));
}

#[test]
fn world_despawn() {
    let mut world = World::new();
    let t = register(&mut world);
    let e = world.spawn(&[t.position], vec![xy(1.0, 2.0)]);
    assert!(world.despawn(e));
    assert!(!world.is_alive(e));
    assert!(world.get(e, t.position).is_none());
    // Double despawn returns false.
    assert!(!world.despawn(e));
}

#[test]
fn world_insert_overwrite() {
    let mut world = World::new();
    let t = register(&mut world);
    let e = world.spawn(&[t.health], vec![health(50)]);
    world.insert_component(e, t.health, health(100));
    assert_eq!(world.get(e, t.health), Some(&health(100)));
}

#[test]
fn query_position_velocity() {
    let mut world = World::new();
    let t = register(&mut world);
    world.spawn(&[t.position], vec![xy(0.0, 0.0)]); // only Position
    let e2 = world.spawn(&[t.position, t.velocity], vec![xy(1.0, 1.0), xy(2.0, 2.0)]);
    world.spawn(&[t.velocity], vec![xy(3.0, 3.0)]); // only Velocity
    let e4 = world.spawn(
        &[t.position, t.velocity, t.health],
        vec![xy(4.0, 4.0), xy(5.0, 5.0), health(100)],
    );

    let results = world.query(&[t.position, t.velocity]);
    assert_eq!(results.len(), 2);
    let pairs: Vec<(Vec<u8>, Vec<u8>)> = results
        .iter()
        .map(|&e| (world.get(e, t.position).unwrap().clone(), world.get(e, t.velocity).unwrap().clone()))
        .collect();
    let has_e2 = pairs.iter().any(|(p, v)| *p == xy(1.0, 1.0) && *v == xy(2.0, 2.0));
    let has_e4 = pairs.iter().any(|(p, v)| *p == xy(4.0, 4.0) && *v == xy(5.0, 5.0));
    assert!(has_e2, "missing entity e2");
    assert!(has_e4, "missing entity e4");
    let _ = (e2, e4);
}

#[test]
fn query_filter_without() {
    let mut world = World::new();
    let t = register(&mut world);
    let e1 = world.spawn(&[t.position], vec![xy(1.0, 1.0)]);
    let e2 = world.spawn(&[t.position, t.dead], vec![xy(2.0, 2.0), vec![]]);

    let results = world.query_filtered(&[t.position], &[t.dead]);
    assert_eq!(results.len(), 1);
    assert_eq!(world.get(results[0], t.position), Some(&xy(1.0, 1.0)));
    let _ = (e1, e2);
}

#[test]
fn query_filter_with() {
    let mut world = World::new();
    let t = register(&mut world);
    world.spawn(&[t.position], vec![xy(1.0, 1.0)]);
    world.spawn(&[t.position, t.dead], vec![xy(2.0, 2.0), vec![]]);

    let results = world.query_filtered(&[t.position, t.dead], &[]);
    assert_eq!(results.len(), 1);
    assert_eq!(world.get(results[0], t.position), Some(&xy(2.0, 2.0)));
}

#[test]
fn query_entity_id() {
    let mut world = World::new();
    let t = register(&mut world);
    let e1 = world.spawn(&[t.position], vec![xy(1.0, 1.0)]);
    let e2 = world.spawn(&[t.position], vec![xy(2.0, 2.0)]);

    let results = world.query(&[t.position]);
    assert_eq!(results.len(), 2);

    let ids: HashSet<Entity> = results.iter().copied().collect();
    assert!(ids.contains(&e1));
    assert!(ids.contains(&e2));
}

#[test]
fn query_single() {
    let mut world = World::new();
    let t = register(&mut world);
    world.spawn(&[t.position, t.dead], vec![xy(42.0, 0.0), vec![]]);
    world.spawn(&[t.position], vec![xy(0.0, 0.0)]); // not Dead

    let results = world.query_filtered(&[t.position, t.dead], &[]);
    assert_eq!(results.len(), 1, "expected exactly one match");
    assert_eq!(world.get(results[0], t.position), Some(&xy(42.0, 0.0)));
}

#[test]
fn swap_remove_preserves_other_entities() {
    let mut world = World::new();
    let t = register(&mut world);
    let e1 = world.spawn(&[t.a], vec![a(1)]);
    let e2 = world.spawn(&[t.a], vec![a(2)]);
    let e3 = world.spawn(&[t.a], vec![a(3)]);

    world.despawn(e1); // e3 swaps into row 0

    assert_eq!(world.get(e2, t.a), Some(&a(2)));
    assert_eq!(world.get(e3, t.a), Some(&a(3)));
    assert!(!world.is_alive(e1));
}

#[test]
fn million_spawn_despawn_no_id_collisions() {
    let mut world = World::new();
    let t = register(&mut world);
    let mut seen = HashSet::new();

    // Cycle 1: spawn 1M.
    let mut entities: Vec<Entity> = (0..1_000_000u32).map(|i| world.spawn(&[t.a], vec![a(i)])).collect();
    for &e in &entities {
        assert!(seen.insert((e.index(), e.generation())), "collision in cycle 1");
    }

    // Despawn all.
    for &e in &entities {
        assert!(world.despawn(e));
    }
    assert_eq!(world.entity_count(), 0);

    // Cycle 2: spawn another 1M.
    seen.clear();
    entities.clear();
    for i in 0..1_000_000u32 {
        let e = world.spawn(&[t.a], vec![a(i)]);
        assert!(seen.insert((e.index(), e.generation())), "collision in cycle 2");
        entities.push(e);
    }
}

#[test]
fn query_empty_world() {
    let world = World::new();
    let results = world.query(&[ComponentId(0)]);
    assert!(results.is_empty());
}

#[test]
fn query_no_match() {
    let mut world = World::new();
    let t = register(&mut world);
    world.spawn(&[t.velocity], vec![xy(1.0, 2.0)]);
    let results = world.query(&[t.position]);
    assert!(results.is_empty());
}

#[test]
fn insert_then_query() {
    let mut world = World::new();
    let t = register(&mut world);
    let e = world.spawn(&[t.position], vec![xy(1.0, 2.0)]);
    world.insert_component(e, t.velocity, xy(3.0, 4.0));

    let results = world.query(&[t.position, t.velocity]);
    assert_eq!(results.len(), 1);
    assert_eq!(world.get(results[0], t.position), Some(&xy(1.0, 2.0)));
    assert_eq!(world.get(results[0], t.velocity), Some(&xy(3.0, 4.0)));
}

#[test]
fn remove_then_query() {
    let mut world = World::new();
    let t = register(&mut world);
    let e = world.spawn(&[t.position, t.velocity], vec![xy(1.0, 2.0), xy(3.0, 4.0)]);
    world.remove_component(e, t.velocity);

    let results = world.query(&[t.position, t.velocity]);
    assert!(results.is_empty());

    // But Position-only query still finds it.
    let results = world.query(&[t.position]);
    assert_eq!(results.len(), 1);
}

#[test]
fn multiple_archetypes_with_shared_query() {
    let mut world = World::new();
    let t = register(&mut world);
    // Archetype (Pos)
    world.spawn(&[t.position], vec![xy(1.0, 0.0)]);
    // Archetype (Pos, Vel)
    world.spawn(&[t.position, t.velocity], vec![xy(2.0, 0.0), xy(0.0, 0.0)]);
    // Archetype (Pos, Health)
    world.spawn(&[t.position, t.health], vec![xy(3.0, 0.0), health(10)]);
    // Archetype (Pos, Vel, Health)
    world.spawn(
        &[t.position, t.velocity, t.health],
        vec![xy(4.0, 0.0), xy(0.0, 0.0), health(20)],
    );

    // All four have Position.
    let positions = world.query(&[t.position]);
    assert_eq!(positions.len(), 4);
}

fn x_of(record: &[u8]) -> f32 {
    f32::from_le_bytes([record[0], record[1], record[2], record[3]])
}

fn set_x(record: &mut [u8], x: f32) {
    record[0..4].copy_from_slice(&x.to_le_bytes());
}

#[test]
fn world_get_mut() {
    let mut world = World::new();
    let t = register(&mut world);
    let e = world.spawn(&[t.position], vec![xy(0.0, 0.0)]);
    if let Some(pos) = world.get_mut(e, t.position) {
        set_x(pos, 42.0);
    }
    assert_eq!(world.get(e, t.position), Some(&xy(42.0, 0.0)));
}

#[test]
fn query_mut_velocity() {
    let mut world = World::new();
    let t = register(&mut world);
    world.spawn(&[t.position, t.velocity], vec![xy(0.0, 0.0), xy(1.0, 0.0)]);
    world.spawn(&[t.position, t.velocity], vec![xy(0.0, 0.0), xy(2.0, 0.0)]);

    // Mutate all velocities.
    for e in world.query(&[t.velocity]) {
        let vel = world.get_mut(e, t.velocity).unwrap();
        let x = x_of(vel);
        set_x(vel, x + 10.0);
    }

    // Verify changes persisted.
    let vels: Vec<f32> = world.query(&[t.velocity]).iter().map(|&e| x_of(world.get(e, t.velocity).unwrap())).collect();
    assert!(vels.iter().all(|&x| x >= 11.0));
}

#[test]
fn query_mut_optional() {
    let mut world = World::new();
    let t = register(&mut world);
    world.spawn(&[t.position, t.velocity], vec![xy(0.0, 0.0), xy(1.0, 0.0)]);
    world.spawn(&[t.position], vec![xy(0.0, 0.0)]); // no velocity

    for e in world.query(&[t.position]) {
        let pos = world.get_mut(e, t.position).unwrap();
        let x = x_of(pos);
        set_x(pos, x + 100.0);
        if let Some(v) = world.get_mut(e, t.velocity) {
            let x = x_of(v);
            set_x(v, x + 50.0);
        }
    }

    let positions = world.query(&[t.position]);
    assert!(positions.iter().all(|&e| x_of(world.get(e, t.position).unwrap()) == 100.0));

    let vels = world.query(&[t.velocity]);
    assert_eq!(vels.len(), 1);
    assert_eq!(x_of(world.get(vels[0], t.velocity).unwrap()), 51.0);
}

#[test]
fn changed_filter_detects_modification() {
    let mut world = World::new();
    let t = register(&mut world);
    world.set_tick(1); // Simulate frame 1.
    let e1 = world.spawn(&[t.position], vec![xy(0.0, 0.0)]);
    let e2 = world.spawn(&[t.position], vec![xy(1.0, 1.0)]);

    // Both spawned at tick 1, so Changed<Position> finds both.
    let changed = world.query_ticked(&[t.position], &TickFilter::Changed(t.position));
    assert_eq!(changed.len(), 2);

    // Advance to tick 2.
    world.set_tick(2);

    // Nothing changed at tick 2 yet.
    let changed = world.query_ticked(&[t.position], &TickFilter::Changed(t.position));
    assert_eq!(changed.len(), 0);

    // Modify e1 via get_mut, which marks change tick = 2.
    set_x(world.get_mut(e1, t.position).unwrap(), 99.0);

    // Now Changed<Position> should find only e1.
    let changed = world.query_ticked(&[t.position], &TickFilter::Changed(t.position));
    assert_eq!(changed.len(), 1);
    assert_eq!(changed[0], e1);
    assert_eq!(x_of(world.get(changed[0], t.position).unwrap()), 99.0);

    let _ = e2;
}

#[test]
fn added_filter_detects_newly_inserted() {
    let mut world = World::new();
    let t = register(&mut world);
    world.set_tick(1);
    let e = world.spawn(&[t.position], vec![xy(0.0, 0.0)]);

    // Position was added at tick 1.
    let added = world.query_ticked(&[], &TickFilter::Added(t.position));
    assert_eq!(added.len(), 1);

    // Advance to tick 2, insert Velocity.
    world.set_tick(2);
    world.insert_component(e, t.velocity, xy(1.0, 0.0));

    // Velocity was added at tick 2.
    let added_vel = world.query_ticked(&[], &TickFilter::Added(t.velocity));
    assert_eq!(added_vel.len(), 1);

    // Position was NOT added at tick 2 (it was added at tick 1).
    let added_pos = world.query_ticked(&[], &TickFilter::Added(t.position));
    assert_eq!(added_pos.len(), 0);
}

#[test]
fn changed_within_and_or_filters() {
    let mut world = World::new();
    let t = register(&mut world);
    world.set_tick(10);
    let e1 = world.spawn(&[t.position], vec![xy(0.0, 0.0)]);
    world.set_tick(12);
    let e2 = world.spawn(&[t.position, t.health], vec![xy(0.0, 0.0), health(1)]);
    world.set_tick(14);
    assert_eq!(world.tick(), 14);

    let within_2 = world.query_ticked(&[], &TickFilter::ChangedWithin(t.position, 2));
    assert_eq!(within_2, vec![e2]);
    let mut within_4 = world.query_ticked(&[], &TickFilter::ChangedWithin(t.position, 4));
    within_4.sort_by_key(|e| e.index());
    assert_eq!(within_4, vec![e1, e2]);

    // Health written now, or Position added at tick 14: neither holds.
    let either = TickFilter::Or(Box::new(TickFilter::Changed(t.health)), Box::new(TickFilter::Added(t.position)));
    assert!(world.query_ticked(&[], &either).is_empty());
    *world.get_mut(e2, t.health).unwrap() = health(5);
    assert_eq!(world.query_ticked(&[], &either), vec![e2]);
    // A filter on a component the entity lacks never holds.
    assert!(world.query_ticked(&[t.velocity], &TickFilter::ChangedWithin(t.position, 100)).is_empty());
}
