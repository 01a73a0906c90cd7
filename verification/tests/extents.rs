use raxiom::extents::Extents;
use raxiom::extents::Position;

/// One meter in fixed-point coordinates.
const SCALE: f64 = 1_000_000.0;

fn meter(x: f64) -> i64 {
    (x * SCALE) as i64
}

fn meter_pos(x: f64, y: f64) -> Position {
    Position { x: meter(x), y: meter(y) }
}

fn assert_is_close(x: i64, y: f64) {
    assert_eq!(x, meter(y));
}

#[test]
fn extent_quadrants() {
    let root_extents = Extents::new(meter(-1.0), meter(1.0), meter(-2.0), meter(2.0));
    let quadrants = root_extents.get_quadrants();
    assert_is_close(quadrants[0].x_min, -1.0);
    assert_is_close(quadrants[0].x_max, 0.0);
    assert_is_close(quadrants[0].y_min, -2.0);
    assert_is_close(quadrants[0].y_max, 0.0);

    assert_is_close(quadrants[1].x_min, 0.0);
    assert_is_close(quadrants[1].x_max, 1.0);
    assert_is_close(quadrants[1].y_min, -2.0);
    assert_is_close(quadrants[1].y_max, 0.0);

    assert_is_close(quadrants[2].x_min, 0.0);
    assert_is_close(quadrants[2].x_max, 1.0);
    assert_is_close(quadrants[2].y_min, 0.0);
    assert_is_close(quadrants[2].y_max, 2.0);

    assert_is_close(quadrants[3].x_min, -1.0);
    assert_is_close(quadrants[3].x_max, 0.0);
    assert_is_close(quadrants[3].y_min, 0.0);
    assert_is_close(quadrants[3].y_max, 2.0);
}

#[test]
fn extent_from_positions() {
    let positions = vec![
        meter_pos(1.0, 0.0),
        meter_pos(-1.0, 0.0),
        meter_pos(0.0, -2.0),
        meter_pos(0.0, 2.0),
    ];
    let extents = Extents::from_positions(&positions).unwrap();
    assert_is_close(extents.x_min, -1.0);
    assert_is_close(extents.x_max, 1.0);
    assert_is_close(extents.y_min, -2.0);
    assert_is_close(extents.y_max, 2.0);
}

#[test]
fn extent_from_positions_is_none_with_zero_positions() {
    assert!(Extents::from_positions(&Vec::new()).is_none());
}

#[test]
fn extent_from_positions_is_none_with_particles_at_same_positions() {
    let positions = vec![
        meter_pos(1.0, 0.0),
        meter_pos(1.0, 0.0),
        meter_pos(1.0, 0.0),
    ];
    assert!(Extents::from_positions(&positions).is_none());
}

#[test]
fn extent_contains_is_half_open() {
    let extents = Extents::new(0, 10, 0, 10);
    assert!(extents.contains(&Position { x: 0, y: 0 }));
    assert!(extents.contains(&Position { x: 9, y: 9 }));
    assert!(!extents.contains(&Position { x: 10, y: 5 }));
    assert!(!extents.contains(&Position { x: 5, y: 10 }));
    assert!(!extents.contains(&Position { x: -1, y: 5 }));
}
