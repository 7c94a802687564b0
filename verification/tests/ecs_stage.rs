use arachne::ecs::stage::{Schedule, Stage};

/// Runs one frame of `schedule`, calling `run` with each system's stage
/// and index in the order the schedule gives.
fn run_frame(schedule: &mut Schedule, mut run: impl FnMut(Stage, usize)) {
    for stage in schedule.begin_frame() {
        let order = schedule.stage_order(stage).expect("cycle detected in system ordering");
        for idx in order {
            run(stage, idx);
        }
    }
}

#[test]
fn system_ordering_before_after() {
    let mut schedule = Schedule::new();
    let labels = ["A", "B", "C"];
    schedule.add_system(Stage::Update, "sys_a").before(&mut schedule, "sys_b");
    schedule.add_system(Stage::Update, "sys_b");
    schedule.add_system(Stage::Update, "sys_c").after(&mut schedule, "sys_b");

    let mut order: Vec<&str> = Vec::new();
    run_frame(&mut schedule, |stage, idx| {
        if stage == Stage::Update {
            order.push(labels[idx]);
        }
    });

    let a_idx = order.iter().position(|&s| s == "A").unwrap();
    let b_idx = order.iter().position(|&s| s == "B").unwrap();
    let c_idx = order.iter().position(|&s| s == "C").unwrap();
    assert!(a_idx < b_idx, "A should run before B, got: {order:?}");
    assert!(b_idx < c_idx, "B should run before C, got: {order:?}");
}

#[test]
fn startup_systems_run_once() {
    let mut schedule = Schedule::new();
    schedule.add_system(Stage::Startup, "startup_sys");
    schedule.add_system(Stage::Update, "update_sys");

    let mut startup_count = 0u32;
    let mut update_count = 0u32;
    for _ in 0..3 {
        run_frame(&mut schedule, |stage, _| match stage {
            Stage::Startup => startup_count += 1,
            Stage::Update => update_count += 1,
            _ => {}
        });
    }

    assert_eq!(startup_count, 1, "startup should run once");
    assert_eq!(update_count, 3, "update should run every frame");
}

#[test]
fn frames_run_stages_in_order() {
    let mut schedule = Schedule::new();
    assert_eq!(
        schedule.begin_frame(),
        vec![Stage::Startup, Stage::PreUpdate, Stage::Update, Stage::PostUpdate, Stage::Render]
    );
    assert_eq!(schedule.begin_frame(), Stage::runtime_order());
    assert_eq!(
        Stage::runtime_order(),
        vec![Stage::PreUpdate, Stage::Update, Stage::PostUpdate, Stage::Render]
    );
}

#[test]
fn stage_systems_of_all_stages_run_in_stage_order() {
    let mut schedule = Schedule::new();
    schedule.add_system(Stage::Render, "render");
    schedule.add_system(Stage::PreUpdate, "pre");
    schedule.add_system(Stage::PostUpdate, "post");
    schedule.add_system(Stage::Update, "update");
    let mut seen: Vec<Stage> = Vec::new();
    run_frame(&mut schedule, |stage, _| seen.push(stage));
    assert_eq!(seen, vec![Stage::PreUpdate, Stage::Update, Stage::PostUpdate, Stage::Render]);
}

#[test]
fn stage_cycle_reports_blocked_systems() {
    let mut schedule = Schedule::new();
    schedule.add_system(Stage::Update, "sys_a").after(&mut schedule, "sys_b");
    schedule.add_system(Stage::Update, "sys_b").before(&mut schedule, "sys_a").after(&mut schedule, "sys_a");
    schedule.add_system(Stage::Update, "free");
    assert_eq!(schedule.stage_order(Stage::Update), Err(vec![0, 1]));
    assert_eq!(schedule.stage_order(Stage::PreUpdate), Ok(vec![]));
}

#[test]
fn stage_order_follows_later_changes() {
    let mut schedule = Schedule::new();
    schedule.add_system(Stage::Update, "a");
    let b = schedule.add_system(Stage::Update, "b");
    assert_eq!(schedule.stage_order(Stage::Update), Ok(vec![0, 1]));
    // A second query gives the same order.
    assert_eq!(schedule.stage_order(Stage::Update), Ok(vec![0, 1]));
    b.before(&mut schedule, "a");
    assert_eq!(schedule.stage_order(Stage::Update), Ok(vec![1, 0]));
    schedule.add_system(Stage::Update, "c").before(&mut schedule, "b");
    assert_eq!(schedule.stage_order(Stage::Update), Ok(vec![2, 1, 0]));
}

#[test]
fn builder_reports_stage_and_index() {
    let mut schedule = Schedule::new();
    let first = schedule.add_system(Stage::Render, "x");
    let second = schedule.add_system(Stage::Render, "y");
    let other = schedule.add_system(Stage::Update, "z");
    assert_eq!((first.stage, first.index), (Stage::Render, 0));
    assert_eq!((second.stage, second.index), (Stage::Render, 1));
    assert_eq!((other.stage, other.index), (Stage::Update, 0));
}
