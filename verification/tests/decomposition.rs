use raxiom::cutoffs::target_rank;
use raxiom::decomposition::build_records;
use raxiom::decomposition::run_decomposition_epoch;
use raxiom::decomposition::LocalParticle;
use raxiom::decomposition::Mass;
use raxiom::decomposition::Velocity;
use raxiom::extents::Extents;
use raxiom::extents::Position;
use raxiom::peano_hilbert::PeanoHilbertKey;

/// One unit of the scenario's coordinate system, in fixed point.
const UNIT: i64 = 1_000_000;

fn particle(entity: u64, x: f64, y: f64) -> LocalParticle {
    LocalParticle {
        entity,
        pos: Position { x: (x * UNIT as f64) as i64, y: (y * UNIT as f64) as i64 },
        vel: Velocity { x: 0, y: 0 },
        mass: Mass(1),
    }
}

#[test]
fn build_records_sorts_by_key() {
    let extents = Extents::new(0, UNIT, 0, UNIT);
    let locals = vec![
        particle(0, 0.9, 0.1),
        particle(1, 0.1, 0.1),
        particle(2, 0.5, 0.7),
        particle(3, 0.3, 0.2),
    ];
    let records = build_records(&extents, &locals);
    assert_eq!(records.len(), 4);
    for pair in records.windows(2) {
        assert!(pair[0].key.0 <= pair[1].key.0);
    }
}

#[test]
fn unit_square_scenario_brackets_every_item() {
    // unit square, four ranks, one item per rank, bucket size one: the
    // cutoffs partition the key space and each item ends up on the rank
    // whose bucket brackets its key; assignment follows key order, not
    // literal key values, since keys are curve-dependent
    let extents = Extents::new(0, UNIT, 0, UNIT);
    let particles = vec![
        vec![particle(0, 0.1, 0.1)],
        vec![particle(1, 0.4, 0.4)],
        vec![particle(2, 0.6, 0.6)],
        vec![particle(3, 0.9, 0.9)],
    ];
    let (cutoffs, after) = run_decomposition_epoch(&extents, particles.clone(), 1, 1000);
    assert!(cutoffs.len() <= 3);
    assert_eq!(after.len(), 4);
    // nothing is lost or duplicated
    let total: usize = after.iter().map(|row| row.len()).sum();
    assert_eq!(total, 4);
    // every item is resident on the rank its key routes to
    for (rank, row) in after.iter().enumerate() {
        for item in row.iter() {
            let key = PeanoHilbertKey::new(&extents, &item.pos);
            assert_eq!(target_rank(&cutoffs, key), rank);
        }
    }
    // assignment preserves the relative key order across ranks
    let mut keys_by_rank: Vec<(usize, u64)> = Vec::new();
    for (rank, row) in after.iter().enumerate() {
        for item in row.iter() {
            keys_by_rank.push((rank, PeanoHilbertKey::new(&extents, &item.pos).0));
        }
    }
    for a in keys_by_rank.iter() {
        for b in keys_by_rank.iter() {
            if a.0 < b.0 {
                assert!(a.1 < b.1);
            }
        }
    }
}

#[test]
fn migrated_items_keep_their_payload() {
    // two ranks, all items on rank 0, far apart: the epoch moves the
    // upper item to rank 1 with position, velocity and mass unchanged
    let extents = Extents::new(0, UNIT, 0, UNIT);
    let mut lower = particle(0, 0.1, 0.1);
    lower.vel = Velocity { x: 5, y: -3 };
    lower.mass = Mass(11);
    let mut upper = particle(1, 0.9, 0.9);
    upper.vel = Velocity { x: -2, y: 8 };
    upper.mass = Mass(13);
    let particles = vec![vec![lower, upper], vec![]];
    let (cutoffs, after) = run_decomposition_epoch(&extents, particles, 2, 500);
    assert_eq!(cutoffs.len(), 1);
    let total: usize = after.iter().map(|row| row.len()).sum();
    assert_eq!(total, 2);
    for row in after.iter() {
        assert_eq!(row.len(), 1);
    }
    let moved: Vec<&LocalParticle> =
        after.iter().flatten().filter(|p| p.mass == Mass(13)).collect();
    assert_eq!(moved.len(), 1);
    assert_eq!(moved[0].vel, Velocity { x: -2, y: 8 });
    assert_eq!(moved[0].pos, upper.pos);
    // the receiver materialized it under a fresh handle
    assert_eq!(moved[0].entity, 500);
}

#[test]
fn identical_positions_leave_items_in_place() {
    // degenerate geometry: every item of every rank sits at one position,
    // so the epoch skips the accumulation search and migrates nothing,
    // however many items there are
    let extents = Extents::new(0, UNIT, 0, UNIT);
    let particles = vec![
        vec![particle(0, 0.5, 0.5), particle(1, 0.5, 0.5)],
        vec![particle(2, 0.5, 0.5), particle(3, 0.5, 0.5)],
    ];
    let (cutoffs, after) = run_decomposition_epoch(&extents, particles.clone(), 1, 0);
    assert!(cutoffs.is_empty());
    assert_eq!(after, particles);
}

#[test]
fn degenerate_load_leaves_items_in_place() {
    // fewer items than ranks: the solver skips the accumulation and every
    // item stays on its current rank
    let extents = Extents::new(0, UNIT, 0, UNIT);
    let particles = vec![
        Vec::new(),
        vec![particle(7, 0.9, 0.9)],
        Vec::new(),
    ];
    let (cutoffs, after) = run_decomposition_epoch(&extents, particles.clone(), 1, 0);
    assert!(cutoffs.is_empty());
    assert_eq!(after.len(), 3);
    assert!(after[0].is_empty());
    assert_eq!(after[1], particles[1]);
    assert!(after[2].is_empty());
}

#[test]
fn single_rank_epoch_keeps_everything_local() {
    let extents = Extents::new(0, UNIT, 0, UNIT);
    let particles = vec![vec![
        particle(0, 0.2, 0.3),
        particle(1, 0.8, 0.7),
        particle(2, 0.5, 0.5),
    ]];
    let (cutoffs, after) = run_decomposition_epoch(&extents, particles.clone(), 1, 100);
    assert!(cutoffs.is_empty());
    assert_eq!(after.len(), 1);
    assert_eq!(after[0], particles[0]);
}
