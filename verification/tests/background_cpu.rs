use pumpkin::background_cpu::{BackgroundCpuBudget, BackgroundCpuCategory};

#[test]
fn automatic_reserves_capacity_for_both_categories() {
    for parallelism in [1, 2, 3, 4, 5, 8, 64] {
        let budget = BackgroundCpuBudget::automatic(usize::MAX, parallelism);
        let category_max = budget.capacity().saturating_sub(1).max(1);
        assert_eq!(budget.generation_limit(), category_max);
        assert_eq!(budget.packet_preparation_limit(), category_max);
    }
}

#[test]
fn automatic_leaves_two_threads_alone() {
    assert_eq!(BackgroundCpuBudget::automatic(4, 1).capacity(), 1);
    assert_eq!(BackgroundCpuBudget::automatic(4, 3).capacity(), 1);
    assert_eq!(BackgroundCpuBudget::automatic(4, 4).capacity(), 2);
    let budget = BackgroundCpuBudget::automatic(4, 16);
    assert_eq!(budget.capacity(), 14);
    assert_eq!(budget.generation_limit(), 13);
    assert_eq!(budget.packet_preparation_limit(), 4);
    assert_eq!(BackgroundCpuBudget::automatic(0, 16).packet_preparation_limit(), 1);
}

#[test]
fn limits_are_held_within_the_capacity() {
    let budget = BackgroundCpuBudget::new(0, 0, 9);
    assert_eq!(budget.capacity(), 1);
    assert_eq!(budget.generation_limit(), 1);
    assert_eq!(budget.packet_preparation_limit(), 1);
}

#[test]
fn generation_limit_reserves_packet_capacity() {
    let mut budget = BackgroundCpuBudget::new(2, 1, 2);
    let generation = budget.acquire(BackgroundCpuCategory::Generation, 0).unwrap();
    assert!(budget.acquire(BackgroundCpuCategory::Generation, 0).is_none());

    let packet = budget.acquire(BackgroundCpuCategory::PacketPreparation, 0).unwrap();
    assert!(budget.acquire(BackgroundCpuCategory::Generation, 0).is_none());
    budget.release(generation);
    let second_generation = budget.acquire(BackgroundCpuCategory::Generation, 0).unwrap();
    assert_eq!(second_generation.category(), BackgroundCpuCategory::Generation);
    budget.release(packet);
    budget.release(second_generation);
}

#[test]
fn the_whole_capacity_is_the_limit_of_both() {
    let mut budget = BackgroundCpuBudget::new(2, 2, 2);
    let first = budget.acquire(BackgroundCpuCategory::PacketPreparation, 0).unwrap();
    let second = budget.acquire(BackgroundCpuCategory::PacketPreparation, 0).unwrap();
    assert!(budget.acquire(BackgroundCpuCategory::Generation, 0).is_none());
    budget.release(first);
    budget.release(second);
    assert!(budget.acquire(BackgroundCpuCategory::Generation, 0).is_some());
}

#[test]
fn acquisitions_and_waits_are_counted_by_category() {
    let mut budget = BackgroundCpuBudget::new(4, 1, 4);
    budget.acquire(BackgroundCpuCategory::Generation, 7).unwrap();
    assert!(budget.acquire(BackgroundCpuCategory::Generation, 1000).is_none());
    budget.acquire(BackgroundCpuCategory::PacketPreparation, 20).unwrap();
    budget.acquire(BackgroundCpuCategory::PacketPreparation, 22).unwrap();
    assert_eq!(budget.acquisitions(BackgroundCpuCategory::Generation), 1);
    assert_eq!(budget.wait_nanos(BackgroundCpuCategory::Generation), 7);
    assert_eq!(budget.acquisitions(BackgroundCpuCategory::PacketPreparation), 2);
    assert_eq!(budget.wait_nanos(BackgroundCpuCategory::PacketPreparation), 42);
}

#[test]
fn long_waits_are_cut_off() {
    let mut budget = BackgroundCpuBudget::new(1, 1, 1);
    budget.acquire(BackgroundCpuCategory::Generation, u128::MAX).unwrap();
    assert_eq!(budget.wait_nanos(BackgroundCpuCategory::Generation), u64::MAX);
}
