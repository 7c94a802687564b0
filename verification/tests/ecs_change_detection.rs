use arachne::ecs::change_detection::{ChangeTrackersItem, ComponentTicks, Tick};

#[test]
fn tick_ordering() {
    let t0 = Tick::new(0);
    let t1 = Tick::new(1);
    let t5 = Tick::new(5);

    assert!(t1.is_newer_than(t0, t5));
    assert!(!t0.is_newer_than(t1, t5));
    assert!(t5.is_newer_than(t0, t5));
}

#[test]
fn tick_is_within_window() {
    let current = Tick::new(10);
    assert!(Tick::new(8).is_within(current, 3));
    assert!(Tick::new(7).is_within(current, 3));
    assert!(!Tick::new(6).is_within(current, 3));
    assert!(Tick::new(10).is_within(current, 0));
}

#[test]
fn tick_zero_default() {
    let t = Tick::default();
    assert_eq!(t.get(), 0);
    assert_eq!(t, Tick::zero());
}

#[test]
fn component_ticks_checks() {
    let ct = ComponentTicks::new(Tick::new(3), Tick::new(7));

    assert!(ct.is_added_at(Tick::new(3)));
    assert!(!ct.is_added_at(Tick::new(4)));

    assert!(ct.is_changed_at(Tick::new(7)));
    assert!(!ct.is_changed_at(Tick::new(6)));

    assert!(ct.added_within(Tick::new(10), 7));
    assert!(!ct.added_within(Tick::new(10), 6));

    assert!(ct.changed_within(Tick::new(10), 3));
    assert!(!ct.changed_within(Tick::new(10), 2));
}

#[test]
fn change_trackers_item_flags() {
    let value = 42u32;
    let item = ChangeTrackersItem {
        value: &value,
        change_tick: Tick::new(5),
        added_tick: Tick::new(3),
        world_tick: Tick::new(5),
    };

    assert!(item.is_changed());
    assert!(!item.is_added());

    assert!(item.changed_within(0));
    assert!(item.added_within(2));
    assert!(!item.added_within(1));
}

#[test]
fn change_trackers_item_both_flags() {
    let value = 42u32;
    let item = ChangeTrackersItem {
        value: &value,
        change_tick: Tick::new(5),
        added_tick: Tick::new(5),
        world_tick: Tick::new(5),
    };

    assert!(item.is_changed());
    assert!(item.is_added());
}

#[test]
fn tick_within_at_boundary() {
    assert!(Tick::new(5).is_within(Tick::new(10), 5));
    assert!(!Tick::new(4).is_within(Tick::new(10), 5));
}

#[test]
fn component_ticks_new() {
    let ct = ComponentTicks::new(Tick::new(1), Tick::new(2));
    assert_eq!(ct.added, Tick::new(1));
    assert_eq!(ct.changed, Tick::new(2));
}

#[test]
fn tick_within_across_wraparound() {
    // The clock wraps: tick u32::MAX is two ticks before tick 1.
    assert!(Tick::new(u32::MAX).is_within(Tick::new(1), 2));
    assert!(!Tick::new(u32::MAX).is_within(Tick::new(1), 1));
}

#[test]
fn tick_newer_across_wrap() {
    // A tick written just after the clock wrapped is newer than one just
    // before it.
    let current = Tick::new(3);
    let before_wrap = Tick::new(u32::MAX - 1);
    let after_wrap = Tick::new(1);
    assert!(after_wrap.is_newer_than(before_wrap, current));
    assert!(!before_wrap.is_newer_than(after_wrap, current));
    assert!(!after_wrap.is_newer_than(after_wrap, current));
}
