use arachne::ecs::event::EventStorage;
use arachne::ecs::resource::ResourceMap;

#[test]
fn resource_map_insert_get_remove() {
    let mut m = ResourceMap::new();
    assert!(!m.contains(1));
    assert_eq!(m.try_get(1), None);
    m.insert(1, vec![1, 2]);
    m.insert(2, vec![3]);
    assert_eq!(m.get(1), &vec![1, 2]);
    assert_eq!(m.try_get(2), Some(&vec![3]));
    m.insert(1, vec![4]);
    assert_eq!(m.get(1), &vec![4]);
    assert_eq!(m.remove(1), Some(vec![4]));
    assert_eq!(m.remove(1), None);
    assert!(!m.contains(1));
    assert!(m.contains(2));
}

#[test]
fn resource_map_changes_in_place() {
    let mut m = ResourceMap::default();
    m.insert(7, vec![0]);
    m.get_mut(7).push(1);
    assert_eq!(m.get(7), &vec![0, 1]);
    if let Some(v) = m.try_get_mut(7) {
        v[0] = 9;
    }
    assert_eq!(m.get(7), &vec![9, 1]);
    assert!(m.try_get_mut(8).is_none());
}

#[test]
fn event_storage_swaps_every_queue() {
    let mut s = EventStorage::new();
    s.register(1);
    s.register(2);
    s.get_mut(1).send(vec![10]);
    s.get_mut(2).send(vec![20]);
    s.get_mut(2).send(vec![21]);
    assert_eq!(s.get(1).len(), 0);
    s.swap_all();
    assert_eq!(s.get(1).read(), &[vec![10]][..]);
    assert_eq!(s.get(2).read(), &[vec![20], vec![21]][..]);
    s.swap_all();
    assert!(s.get(1).is_empty() && s.get(2).is_empty());
    assert!(!EventStorage::default().contains(1));
}
