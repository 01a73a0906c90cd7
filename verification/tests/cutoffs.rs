use raxiom::cutoffs::compute_cutoffs;
use raxiom::cutoffs::sort_and_merge_segments;
use raxiom::cutoffs::target_rank;
use raxiom::peano_hilbert::PeanoHilbertKey;
use raxiom::segment::Segment;

fn seg(start: u64, end: u64, num_particles: usize) -> Segment {
    Segment { start: PeanoHilbertKey(start), end: PeanoHilbertKey(end), num_particles }
}

#[test]
fn merge_sorts_by_start_and_keeps_total() {
    let lists = vec![
        vec![seg(10, 20, 3), seg(30, 40, 2)],
        vec![seg(0, 10, 1), seg(25, 30, 4)],
    ];
    let merged = sort_and_merge_segments(&lists);
    assert_eq!(merged.len(), 4);
    for pair in merged.windows(2) {
        assert!(pair[0].start.0 <= pair[1].start.0);
    }
    assert_eq!(merged.iter().map(|s| s.num_particles).sum::<usize>(), 10);
}

#[test]
fn cutoffs_walk_accumulates_to_target() {
    // total 8 over 4 ranks: one cutoff per two counted records
    let merged = vec![seg(0, 10, 2), seg(10, 20, 2), seg(20, 30, 2), seg(30, 40, 2)];
    let cutoffs = compute_cutoffs(&merged, 4);
    assert_eq!(
        cutoffs,
        vec![PeanoHilbertKey(10), PeanoHilbertKey(20), PeanoHilbertKey(30)]
    );
}

#[test]
fn cutoffs_stop_after_enough_ranks() {
    // total 20 over 2 ranks: the running load reaches 10 at the second
    // segment, and only one cutoff is ever emitted
    let merged = vec![seg(0, 1, 5), seg(1, 2, 5), seg(2, 3, 5), seg(3, 4, 5)];
    let cutoffs = compute_cutoffs(&merged, 2);
    assert_eq!(cutoffs, vec![PeanoHilbertKey(2)]);
}

#[test]
fn cutoffs_zero_width_key_range_yields_none() {
    // all records share one key: the occupied key range has zero width,
    // so the accumulation search is skipped even though the per-rank
    // target is positive, and no item is uprooted
    let merged = vec![seg(5, 6, 4)];
    assert!(compute_cutoffs(&merged, 2).is_empty());
    let merged_mixed = vec![seg(5, 5, 1), seg(5, 6, 3)];
    assert!(compute_cutoffs(&merged_mixed, 2).is_empty());
}

#[test]
fn cutoffs_adjacent_keys_are_not_degenerate() {
    // two neighbouring keys occupy a real range: the walk still runs
    let merged = vec![seg(5, 5, 1), seg(6, 6, 1)];
    let cutoffs = compute_cutoffs(&merged, 2);
    assert_eq!(cutoffs, vec![PeanoHilbertKey(5)]);
}

#[test]
fn cutoffs_degenerate_load_yields_none() {
    // fewer records than ranks: the accumulation is skipped entirely
    let merged = vec![seg(0, 10, 2)];
    let cutoffs = compute_cutoffs(&merged, 4);
    assert!(cutoffs.is_empty());
    assert!(compute_cutoffs(&Vec::new(), 3).is_empty());
}

#[test]
fn target_rank_counts_cutoffs_at_most() {
    let cutoffs = vec![PeanoHilbertKey(10), PeanoHilbertKey(20), PeanoHilbertKey(30)];
    assert_eq!(target_rank(&cutoffs, PeanoHilbertKey(5)), 0);
    assert_eq!(target_rank(&cutoffs, PeanoHilbertKey(10)), 1);
    assert_eq!(target_rank(&cutoffs, PeanoHilbertKey(19)), 1);
    assert_eq!(target_rank(&cutoffs, PeanoHilbertKey(25)), 2);
    assert_eq!(target_rank(&cutoffs, PeanoHilbertKey(30)), 3);
    assert_eq!(target_rank(&cutoffs, PeanoHilbertKey(1000)), 3);
}

#[test]
fn target_rank_is_monotone_and_total() {
    let cutoffs = vec![PeanoHilbertKey(4), PeanoHilbertKey(4), PeanoHilbertKey(9)];
    let num_ranks = cutoffs.len() + 1;
    let mut last = 0;
    for key in 0..12u64 {
        let rank = target_rank(&cutoffs, PeanoHilbertKey(key));
        assert!(rank < num_ranks);
        assert!(rank >= last);
        last = rank;
    }
}
