use raxiom::extents::Extents;
use raxiom::extents::Position;
use raxiom::peano_hilbert::get_integer_position;
use raxiom::peano_hilbert::PeanoHilbertKey;
use raxiom::peano_hilbert::NUM_KEYS;
use raxiom::peano_hilbert::NUM_SUBDIVISIONS;

#[test]
fn peano_hilbert_map_is_isomorphic() {
    for x in 0..30 {
        for y in 0..30 {
            let d = PeanoHilbertKey::from_integer_pos((x, y));
            assert_eq!(d.to_integer_pos(), (x, y));
        }
    }
}

#[test]
fn peano_hilbert_base_quadrants() {
    // the four cells of the one-bit grid follow the base curve shape
    assert_eq!(PeanoHilbertKey::from_integer_pos((0, 0)).0, 0);
    assert_eq!(PeanoHilbertKey::from_integer_pos((0, 1)).0, 1);
    assert_eq!(PeanoHilbertKey::from_integer_pos((1, 1)).0, 2);
    assert_eq!(PeanoHilbertKey::from_integer_pos((1, 0)).0, 3);
}

#[test]
fn peano_hilbert_keys_in_domain() {
    let corner = PeanoHilbertKey::from_integer_pos((NUM_SUBDIVISIONS - 1, NUM_SUBDIVISIONS - 1));
    assert!(corner.0 < NUM_KEYS);
    assert_eq!(
        corner.to_integer_pos(),
        (NUM_SUBDIVISIONS - 1, NUM_SUBDIVISIONS - 1)
    );
}

#[test]
fn integer_position_interpolates() {
    let extents = Extents::new(0, 1000, 0, 2000);
    let pos = Position { x: 500, y: 500 };
    let (qx, qy) = get_integer_position(&extents, &pos);
    // linear interpolation into the grid, truncated
    assert_eq!(qx, 500 * NUM_SUBDIVISIONS / 1000);
    assert_eq!(qy, 500 * NUM_SUBDIVISIONS / 2000);
    assert!(qx < NUM_SUBDIVISIONS && qy < NUM_SUBDIVISIONS);
}

#[test]
fn key_new_matches_quantized_encoding() {
    let extents = Extents::new(0, 1024, 0, 1024);
    let pos = Position { x: 17, y: 923 };
    let quantized = get_integer_position(&extents, &pos);
    let key = PeanoHilbertKey::new(&extents, &pos);
    assert_eq!(key, PeanoHilbertKey::from_integer_pos(quantized));
    assert_eq!(key.to_integer_pos(), quantized);
}

#[test]
fn key_next_is_successor() {
    let key = PeanoHilbertKey(41);
    assert_eq!(key.next().0, 42);
}
