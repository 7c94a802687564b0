use arachne::ecs::parallel::{
    compute_parallel_batches, par_for_each, par_map, ParallelScheduler, SystemAccessInfo, ThreadPool,
};

#[test]
fn no_conflict_disjoint_reads() {
    let mut a = SystemAccessInfo::new();
    a.add_component_read(1);
    let mut b = SystemAccessInfo::new();
    b.add_component_read(2);
    assert!(!a.conflicts_with(&b));
}

#[test]
fn no_conflict_same_reads() {
    let mut a = SystemAccessInfo::new();
    a.add_component_read(1);
    let mut b = SystemAccessInfo::new();
    b.add_component_read(1);
    assert!(!a.conflicts_with(&b));
}

#[test]
fn conflict_read_write_same_component() {
    let mut a = SystemAccessInfo::new();
    a.add_component_read(1);
    let mut b = SystemAccessInfo::new();
    b.add_component_write(1);
    assert!(a.conflicts_with(&b));
}

#[test]
fn conflict_write_write_same_component() {
    let mut a = SystemAccessInfo::new();
    a.add_component_write(1);
    let mut b = SystemAccessInfo::new();
    b.add_component_write(1);
    assert!(a.conflicts_with(&b));
}

#[test]
fn no_conflict_write_different_components() {
    let mut a = SystemAccessInfo::new();
    a.add_component_write(1);
    let mut b = SystemAccessInfo::new();
    b.add_component_write(2);
    assert!(!a.conflicts_with(&b));
}

#[test]
fn conflict_resource_read_write() {
    let mut a = SystemAccessInfo::new();
    a.add_resource_read(10);
    let mut b = SystemAccessInfo::new();
    b.add_resource_write(10);
    assert!(a.conflicts_with(&b));
}

#[test]
fn no_conflict_resource_reads() {
    let mut a = SystemAccessInfo::new();
    a.add_resource_read(10);
    let mut b = SystemAccessInfo::new();
    b.add_resource_read(10);
    assert!(!a.conflicts_with(&b));
}

#[test]
fn is_read_only() {
    let mut a = SystemAccessInfo::new();
    a.add_component_read(1);
    a.add_resource_read(2);
    assert!(a.is_read_only());

    a.add_component_write(3);
    assert!(!a.is_read_only());
}

#[test]
fn batch_empty_systems() {
    let batches = compute_parallel_batches(&[]);
    assert!(batches.is_empty());
}

#[test]
fn batch_single_system() {
    let access = SystemAccessInfo::new();
    let batches = compute_parallel_batches(&[access]);
    assert_eq!(batches.len(), 1);
    assert_eq!(batches[0], vec![0]);
}

#[test]
fn batch_two_non_conflicting_systems() {
    let mut a = SystemAccessInfo::new();
    a.add_component_read(1);
    let mut b = SystemAccessInfo::new();
    b.add_component_read(2);

    let batches = compute_parallel_batches(&[a, b]);
    assert_eq!(batches.len(), 1);
    assert_eq!(batches[0].len(), 2);
}

#[test]
fn batch_two_conflicting_systems() {
    let mut a = SystemAccessInfo::new();
    a.add_component_write(1);
    let mut b = SystemAccessInfo::new();
    b.add_component_write(1);

    let batches = compute_parallel_batches(&[a, b]);
    assert_eq!(batches.len(), 2);
}

#[test]
fn batch_mixed_conflict_no_conflict() {
    let mut s0 = SystemAccessInfo::new();
    s0.add_component_read(1);
    let mut s1 = SystemAccessInfo::new();
    s1.add_component_write(1);
    let mut s2 = SystemAccessInfo::new();
    s2.add_component_read(2);
    let mut s3 = SystemAccessInfo::new();
    s3.add_component_read(1);

    let batches = compute_parallel_batches(&[s0, s1, s2, s3]);

    let mut found_s1_batch = false;
    for batch in &batches {
        if batch.contains(&1) {
            found_s1_batch = true;
            assert!(!batch.contains(&0));
            assert!(!batch.contains(&3));
        }
    }
    assert!(found_s1_batch);

    let all: Vec<usize> = batches.iter().flat_map(|b| b.iter().copied()).collect();
    assert_eq!(all.len(), 4);
}

#[test]
fn scheduler_rebuild() {
    let mut scheduler = ParallelScheduler::new();
    let mut s0 = SystemAccessInfo::new();
    s0.add_component_read(1);
    let mut s1 = SystemAccessInfo::new();
    s1.add_component_read(2);

    scheduler.rebuild(&[s0, s1]);
    assert!(scheduler.is_fully_parallel());
    assert_eq!(scheduler.batch_count(), 1);
}

#[test]
fn thread_pool_creation() {
    let pool = ThreadPool::new(4);
    assert_eq!(pool.thread_count(), 4);
}

#[test]
fn par_for_each_sums_correctly() {
    let pool = ThreadPool::new(2);
    let data: Vec<u32> = (0..100).collect();
    let sum = std::sync::atomic::AtomicU64::new(0);

    par_for_each(&pool, &data, 16, |&x| {
        sum.fetch_add(x as u64, std::sync::atomic::Ordering::Relaxed);
    });

    let expected: u64 = (0..100u64).sum();
    assert_eq!(sum.load(std::sync::atomic::Ordering::Relaxed), expected);
}

#[test]
fn par_map_squares() {
    let pool = ThreadPool::new(2);
    let data: Vec<u32> = (0..20).collect();

    let result = par_map(&pool, &data, 4, |&x| x * x);

    assert_eq!(result.len(), 20);
    for (i, &val) in result.iter().enumerate() {
        assert_eq!(val, (i as u32) * (i as u32));
    }
}

#[test]
fn par_for_each_small_slice_sequential() {
    let pool = ThreadPool::new(2);
    let data = vec![1u32, 2, 3];
    let sum = std::sync::atomic::AtomicU64::new(0);

    par_for_each(&pool, &data, 100, |&x| {
        sum.fetch_add(x as u64, std::sync::atomic::Ordering::Relaxed);
    });

    assert_eq!(sum.load(std::sync::atomic::Ordering::Relaxed), 6);
}

#[test]
fn par_for_each_empty_slice() {
    let pool = ThreadPool::new(2);
    let data: Vec<u32> = vec![];

    par_for_each(&pool, &data, 16, |_| {
        panic!("should not be called");
    });
}

#[test]
fn batches_are_greedy_in_system_order() {
    // s0 writes 1, s1 reads 1, s2 reads 2, s3 writes 2.
    let mut s0 = SystemAccessInfo::new();
    s0.add_component_write(1);
    let mut s1 = SystemAccessInfo::new();
    s1.add_component_read(1);
    let mut s2 = SystemAccessInfo::new();
    s2.add_component_read(2);
    let mut s3 = SystemAccessInfo::new();
    s3.add_component_write(2);
    let batches = compute_parallel_batches(&[s0, s1, s2, s3]);
    assert_eq!(batches, vec![vec![0, 2], vec![1, 3]]);
}

#[test]
fn conflict_is_symmetric_on_examples() {
    let mut a = SystemAccessInfo::new();
    a.add_resource_write(5);
    let mut b = SystemAccessInfo::new();
    b.add_resource_read(5);
    assert_eq!(a.conflicts_with(&b), b.conflicts_with(&a));
    assert!(a.conflicts_with(&b));
}
