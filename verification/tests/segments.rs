use raxiom::peano_hilbert::PeanoHilbertKey;
use raxiom::segment::get_segments;
use raxiom::segment::ParticleData;
use raxiom::segment::Segment;

fn get_particles() -> Vec<ParticleData> {
    (0..10)
        .chain(30..40)
        .map(|i| ParticleData { key: PeanoHilbertKey(i), entity: i as u64 })
        .collect()
}

#[test]
fn num_contained_particles() {
    let particles = get_particles();
    let check_num = |start: usize, end: usize, num: usize| {
        assert_eq!(
            Segment::new(
                &particles,
                PeanoHilbertKey(start as u64),
                PeanoHilbertKey(end as u64)
            )
            .num_particles,
            num
        );
    };
    check_num(0, 0, 0); // empty
    check_num(0, 1, 1); // contains: 0
    check_num(38, 40, 2); // contains: 38, 39

    check_num(20, 20, 0); // empty
    check_num(20, 25, 0); // empty

    check_num(9, 10, 1); // contains: 9
    check_num(9, 11, 1); // contains: 9

    check_num(25, 32, 2); // contains: 30, 31
}

#[test]
fn get_segments_reaches_desired_size() {
    let particles = get_particles();
    let desired_size = 4;
    let segments = get_segments(&particles, desired_size);
    for segment in segments.iter() {
        assert!(segment.num_particles <= desired_size);
    }
}

#[test]
fn get_segments_has_correct_total_number_of_particles() {
    let particles = get_particles();
    let desired_size = 4;
    let segments = get_segments(&particles, desired_size);
    assert_eq!(
        segments
            .iter()
            .map(|segment| segment.num_particles)
            .sum::<usize>(),
        particles.len()
    );
}

#[test]
fn get_segments_does_not_fail_with_empty_list() {
    let particles = vec![];
    get_segments(&particles, 3);
}

#[test]
fn get_segments_does_not_fail_with_single_particle() {
    let particles = vec![get_particles().remove(0)];
    get_segments(&particles, 3);
}

#[test]
fn get_segments_empty_input_yields_no_segments() {
    assert_eq!(get_segments(&Vec::new(), 3).len(), 0);
}

#[test]
fn get_segments_single_particle_is_degenerate() {
    let particles = vec![ParticleData { key: PeanoHilbertKey(7), entity: 0 }];
    let segments = get_segments(&particles, 3);
    assert_eq!(segments.len(), 1);
    assert_eq!(segments[0].start, PeanoHilbertKey(7));
    assert_eq!(segments[0].end, PeanoHilbertKey(7));
    assert_eq!(segments[0].num_particles, 1);
}

#[test]
fn get_segments_keeps_total_with_duplicate_keys() {
    // a one-key-wide interval cannot be split further, so records sharing
    // one key stay together even past the threshold
    let particles: Vec<ParticleData> =
        (0..3).map(|i| ParticleData { key: PeanoHilbertKey(5), entity: i }).collect();
    let segments = get_segments(&particles, 1);
    assert_eq!(
        segments.iter().map(|s| s.num_particles).sum::<usize>(),
        3
    );
    for segment in segments.iter() {
        assert!(segment.end.0 - segment.start.0 <= 1 || segment.num_particles <= 1);
    }
}
