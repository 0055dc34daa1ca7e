use cache_latency::analysis::{working_set_size_of, PlotError, ProfileKind, ReadLatency};

#[test]
fn profile_kind_names() {
    assert_eq!(ProfileKind::from_name("random_read_latency"), Some(ProfileKind::RandomReadLatency));
    assert_eq!(
        ProfileKind::from_name("random_block_read_latency"),
        Some(ProfileKind::RandomBlockReadLatency)
    );
    assert_eq!(ProfileKind::from_name("seq_read_latency"), Some(ProfileKind::SeqReadLatency));
    assert_eq!(ProfileKind::from_name("Seq_read_latency"), None);
    assert_eq!(ProfileKind::from_name(""), None);
}

#[test]
fn working_set_sizes_are_powers_of_two() {
    assert_eq!(working_set_size_of(0), 1);
    assert_eq!(working_set_size_of(10), 1024);
    assert_eq!(working_set_size_of(24), 16 * 1024 * 1024);
    assert_eq!(working_set_size_of(63), 1usize << 63);
}

#[test]
fn max_latency_is_largest_recorded() {
    let mut r = ReadLatency::new(10..13);
    assert_eq!(r.max_latency(), 0);
    r.push_line(1);
    r.push_line(2);
    r.record(0, 5);
    r.record(1, 9);
    r.record(0, 7);
    r.record(1, 3);
    assert_eq!(r.max_latency(), 9);
    assert_eq!(r.latencies()[0].avg_cycles, vec![5, 7]);
    assert_eq!(r.latencies()[1].avg_cycles, vec![9, 3]);
    assert_eq!(r.latencies()[1].group_size, 2);
    assert_eq!(r.working_set_range(), 10..13);
}

#[test]
fn series_pairs_exponents_with_cycles() {
    let mut r = ReadLatency::new(10..13);
    r.push_line(1);
    r.push_line(4);
    for c in [5, 6, 7, 8] {
        r.record(0, c);
    }
    r.record(1, 1);
    let s = r.series().unwrap();
    assert_eq!(s.len(), 2);
    // the range has three exponents: the fourth value has no place
    assert_eq!(s[0], vec![(10, 5), (11, 6), (12, 7)]);
    assert_eq!(s[1], vec![(10, 1)]);
}

#[test]
fn series_of_empty_range() {
    let mut r = ReadLatency::new(5..5);
    r.push_line(1);
    r.record(0, 3);
    assert_eq!(r.series().unwrap(), vec![vec![]]);
}

#[test]
fn too_many_lines_for_the_colours() {
    let mut r = ReadLatency::new(0..1);
    for g in 0..7 {
        r.push_line(g);
    }
    assert!(r.series().is_ok());
    r.push_line(7);
    assert_eq!(r.series(), Err(PlotError::NotEnoughColor));
}

use cache_latency::analysis::{LatencySweep, Measurement, SweepOrder};

fn run(order: SweepOrder) -> (Vec<Measurement>, ReadLatency) {
    let mut sweep = LatencySweep::new(10..13, vec![1, 4], order);
    let mut seen = vec![];
    while let Some(m) = sweep.next_measurement() {
        seen.push(m);
        // the result names its line and working set
        sweep.record((m.legend * 100 + m.working_set as usize) as u64);
    }
    (seen, sweep.finish())
}

#[test]
fn sweep_by_line_goes_through_working_sets_first() {
    let (seen, r) = run(SweepOrder::ByLine);
    let steps: Vec<(usize, usize, usize, u32)> =
        seen.iter().map(|m| (m.line, m.legend, m.buffer, m.working_set)).collect();
    assert_eq!(
        steps,
        vec![(0, 1, 0, 10), (0, 1, 1, 11), (0, 1, 2, 12), (1, 4, 0, 10), (1, 4, 1, 11), (1, 4, 2, 12)]
    );
    assert_eq!(r.latencies()[0].avg_cycles, vec![110, 111, 112]);
    assert_eq!(r.latencies()[1].avg_cycles, vec![410, 411, 412]);
    assert_eq!(r.max_latency(), 412);
}

#[test]
fn sweep_by_working_set_goes_through_lines_first() {
    let (seen, r) = run(SweepOrder::ByWorkingSet);
    let steps: Vec<(usize, usize, u32)> = seen.iter().map(|m| (m.line, m.buffer, m.working_set)).collect();
    assert_eq!(steps, vec![(0, 0, 10), (1, 0, 10), (0, 1, 11), (1, 1, 11), (0, 2, 12), (1, 2, 12)]);
    // each point still lands at its working set
    assert_eq!(r.latencies()[0].avg_cycles, vec![110, 111, 112]);
    assert_eq!(r.latencies()[1].avg_cycles, vec![410, 411, 412]);
}

#[test]
fn sweep_without_working_sets_has_empty_lines() {
    let mut sweep = LatencySweep::new(5..5, vec![1, 2], SweepOrder::ByLine);
    assert_eq!(sweep.next_measurement(), None);
    let r = sweep.finish();
    assert_eq!(r.latencies().len(), 2);
    assert!(r.latencies()[1].avg_cycles.is_empty());
    let mut sweep = LatencySweep::new(3..1, vec![], SweepOrder::ByWorkingSet);
    assert_eq!(sweep.next_measurement(), None);
    sweep = LatencySweep::new(0..4, vec![], SweepOrder::ByWorkingSet);
    assert_eq!(sweep.next_measurement(), None);
}
