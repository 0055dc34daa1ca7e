use cache_latency::latency::{
    alloc_working_set, BenchResult, BenchStats, LatencyError, Pattern, WorkingSetData,
};

#[test]
fn alloc_gives_one_line_per_64_bytes() {
    let data = alloc_working_set(128).unwrap();
    assert_eq!(data.len(), 2);
    assert_eq!(alloc_working_set(0).unwrap().len(), 0);
}

#[test]
fn alloc_refuses_partial_lines() {
    assert!(matches!(alloc_working_set(100), Err(LatencyError::NotCacheLineMultiple)));
}

#[test]
fn new_refuses_empty_working_set() {
    let mut data = alloc_working_set(0).unwrap();
    let r = WorkingSetData::new(&mut data, 1, Pattern::Sequential);
    assert!(matches!(r, Err(LatencyError::EmptyWorkingSet)));
}

#[test]
fn new_refuses_zero_group_size() {
    let mut data = alloc_working_set(64).unwrap();
    let r = WorkingSetData::new(&mut data, 0, Pattern::Sequential);
    assert!(matches!(r, Err(LatencyError::ZeroGroupSize)));
}

#[test]
fn new_refuses_group_size_not_dividing() {
    let mut data = alloc_working_set(192).unwrap();
    let r = WorkingSetData::new(&mut data, 5, Pattern::Random);
    assert!(matches!(r, Err(LatencyError::NotGroupMultiple)));
}

#[test]
fn new_refuses_working_set_smaller_than_group() {
    let mut data = alloc_working_set(64).unwrap();
    let r = WorkingSetData::new(&mut data, 16, Pattern::Sequential);
    assert!(matches!(r, Err(LatencyError::SmallerThanGroup { group_size: 16 })));
}

#[test]
fn new_block_checks_in_order() {
    let mut data = alloc_working_set(256).unwrap();
    let r = WorkingSetData::new(&mut data, 1, Pattern::RandomBlock(3));
    assert!(matches!(r, Err(LatencyError::NotBlockMultiple)));

    let mut data = alloc_working_set(256).unwrap();
    let r = WorkingSetData::new(&mut data, 1, Pattern::RandomBlock(8));
    assert!(matches!(r, Err(LatencyError::BlockNotCacheLineMultiple)));

    let mut data = alloc_working_set(384).unwrap();
    let r = WorkingSetData::new(&mut data, 3, Pattern::RandomBlock(3));
    assert!(matches!(r, Err(LatencyError::BlockNotGroupMultiple)));

    let mut data = alloc_working_set(1024).unwrap();
    let r = WorkingSetData::new(&mut data, 16, Pattern::RandomBlock(16));
    assert!(matches!(
        r,
        Err(LatencyError::GroupLenNotBlockMultiple { group_len: 8, block_count: 16 })
    ));
}

#[test]
fn sequential_chain_visits_groups_in_order() {
    let mut data = alloc_working_set(512).unwrap();
    let w = WorkingSetData::new(&mut data, 2, Pattern::Sequential).unwrap();
    assert_eq!(w.group_len, 32);
    assert_eq!(w.group_size, 2);
    assert_eq!(w.working_set_size, 512);
    let ascending: Vec<usize> = (0..32).collect();
    w.check(&ascending);
    // the chain ends at the first element of the last group
    assert_eq!(w.read(), 31 * 2);
}

#[test]
fn one_element_groups_over_one_line() {
    let mut data = alloc_working_set(64).unwrap();
    let w = WorkingSetData::new(&mut data, 1, Pattern::Sequential).unwrap();
    assert_eq!(w.group_len, 8);
    assert_eq!(w.read(), 7);
}

#[test]
fn single_group_chain_ends_at_once() {
    let mut data = alloc_working_set(64).unwrap();
    let w = WorkingSetData::new(&mut data, 8, Pattern::Random).unwrap();
    assert_eq!(w.group_len, 1);
    assert_eq!(w.read(), 0);
    w.check(&[0]);
}

#[test]
fn given_order_is_the_visit_order() {
    let mut data = alloc_working_set(64).unwrap();
    let w = WorkingSetData::with_order(&mut data, 2, Pattern::Random, vec![0, 2, 1, 3]);
    assert_eq!(w.group_len, 4);
    w.check(&[0, 2, 1, 3]);
    assert_eq!(w.read(), 3 * 2);
}

#[test]
fn relinking_replaces_old_links() {
    let mut data = alloc_working_set(64).unwrap();
    {
        let w = WorkingSetData::with_order(&mut data, 1, Pattern::Random, vec![0, 7, 6, 5, 4, 3, 2, 1]);
        assert_eq!(w.read(), 1);
    }
    let w = WorkingSetData::new(&mut data, 2, Pattern::Sequential).unwrap();
    w.check(&[0, 1, 2, 3]);
    assert_eq!(w.read(), 6);
}

#[test]
fn random_chain_is_shuffled() {
    // a sequential chain over 4096 groups ends at group 4095; five shuffled
    // chains that all end there are out of reach
    let mut ends = vec![];
    for _ in 0..5 {
        let mut data = alloc_working_set(64 * 512).unwrap();
        let w = WorkingSetData::new(&mut data, 1, Pattern::Random).unwrap();
        assert_eq!(w.group_len, 4096);
        let last = w.read();
        assert!(last < 4096);
        ends.push(last);
    }
    assert!(ends.iter().any(|e| *e != 4095));
}

#[test]
fn avg_cycles_divides_by_groups_then_rounds() {
    let res = BenchResult {
        round: 3,
        working_set_size: 640,
        group_size: 8,
        group_len: 10,
        stats: BenchStats { cycles: 1000, l1d_access: 30, l1d_miss: 3 },
    };
    assert_eq!(res.avg_cycles(), 33);
}
