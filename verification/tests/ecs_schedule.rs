use arachne::ecs::schedule::system_order;

fn s(x: &str) -> String {
    x.to_string()
}

#[test]
fn topological_sort_empty() {
    let order = system_order(&[], &[], &[]).unwrap();
    assert!(order.is_empty());
}

#[test]
fn unconstrained_systems_keep_their_order() {
    let names = vec![s("a"), s("b"), s("c")];
    let none: Vec<Vec<String>> = vec![vec![], vec![], vec![]];
    assert_eq!(system_order(&names, &none, &none).unwrap(), vec![0, 1, 2]);
}

#[test]
fn before_and_after_constraints() {
    // c before a; b after c; a after b.
    let names = vec![s("a"), s("b"), s("c")];
    let before = vec![vec![], vec![], vec![s("a")]];
    let after = vec![vec![s("b")], vec![s("c")], vec![]];
    assert_eq!(system_order(&names, &before, &after).unwrap(), vec![2, 1, 0]);
}

#[test]
fn unknown_names_are_ignored() {
    let names = vec![s("a"), s("b")];
    let before = vec![vec![s("missing")], vec![]];
    let after = vec![vec![], vec![s("nobody")]];
    assert_eq!(system_order(&names, &before, &after).unwrap(), vec![0, 1]);
}

#[test]
fn cycle_reports_blocked_systems() {
    // a before b, b before a; c after a; d free.
    let names = vec![s("a"), s("b"), s("c"), s("d")];
    let before = vec![vec![s("b")], vec![s("a")], vec![], vec![]];
    let after = vec![vec![], vec![], vec![s("a")], vec![]];
    assert_eq!(system_order(&names, &before, &after).unwrap_err(), vec![0, 1, 2]);
}

#[test]
fn self_dependency_is_a_cycle() {
    let names = vec![s("a")];
    let before = vec![vec![s("a")]];
    let after = vec![vec![]];
    assert_eq!(system_order(&names, &before, &after).unwrap_err(), vec![0]);
}
