use mining_techniques::coords::Direction;
use mining_techniques::coords::shift_coords;

#[test]
fn shift_moves_along_one_axis() {
    assert_eq!(shift_coords(Direction::East, (10, 64, 20), 5), (15, 64, 20));
    assert_eq!(shift_coords(Direction::West, (10, 64, 20), 5), (5, 64, 20));
    assert_eq!(shift_coords(Direction::South, (10, 64, 20), 5), (10, 64, 25));
    assert_eq!(shift_coords(Direction::North, (10, 64, 20), 5), (10, 64, 15));
}

#[test]
fn shift_negative_amount_moves_backward() {
    assert_eq!(shift_coords(Direction::East, (10, 64, 20), -3), (7, 64, 20));
    assert_eq!(shift_coords(Direction::North, (10, 64, 20), -3), (10, 64, 23));
}

#[test]
fn shift_round_trip_returns_to_start() {
    let c = (123, -7, 456);
    for d in [
        Direction::North,
        Direction::South,
        Direction::East,
        Direction::West,
    ] {
        for n in [-9, -1, 0, 1, 17] {
            assert_eq!(shift_coords(d.opposite(), shift_coords(d, c, n), n), c);
        }
    }
}

#[test]
fn perpendicular_pair_swaps_axes() {
    assert_eq!(
        Direction::East.perpendicular_pair(),
        (Direction::North, Direction::South)
    );
    assert_eq!(
        Direction::West.perpendicular_pair(),
        (Direction::North, Direction::South)
    );
    assert_eq!(
        Direction::North.perpendicular_pair(),
        (Direction::East, Direction::West)
    );
    assert_eq!(
        Direction::South.perpendicular_pair(),
        (Direction::East, Direction::West)
    );
}

#[test]
fn opposite_is_involutive() {
    for d in [
        Direction::North,
        Direction::South,
        Direction::East,
        Direction::West,
    ] {
        assert_eq!(d.opposite().opposite(), d);
    }
}
