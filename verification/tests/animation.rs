use arachne::animation::PropertyPath;
use std::collections::HashMap;

#[test]
fn property_path_hash_eq() {
    let a = PropertyPath::new("transform.position.x");
    let b = PropertyPath::new("transform.position.x");
    let c = PropertyPath::new("transform.position.y");
    assert_eq!(a, b);
    assert_ne!(a, c);

    let mut map = HashMap::new();
    map.insert(a, 42);
    assert_eq!(map.get(&b), Some(&42));
}

#[test]
fn property_path_keeps_its_text() {
    let p = PropertyPath::new("bones.3.rotation");
    assert_eq!(p.0, "bones.3.rotation");
    assert_eq!(PropertyPath::new("").0, "");
}
