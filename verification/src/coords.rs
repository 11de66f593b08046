//! World positions and the four cardinal directions every layout is
//! phrased in.

use vstd::prelude::*;

verus! {

/// A world position: (x, y, z).
pub type Coord = (i64, i64, i64);

/// The four horizontal cardinal directions. Each moves along exactly one
/// horizontal axis: East/West along x, North/South along z.
#[derive(Clone, Copy, PartialEq, Eq, Structural, Debug)]
pub enum Direction {
    North,
    South,
    East,
    West,
}

impl Direction {
    /// The unit step this direction takes on the horizontal axes, as (dx, dz).
    pub open spec fn spec_delta(self) -> (int, int) {
        match self {
            Direction::North => (0, -1),
            Direction::South => (0, 1),
            Direction::East => (1, 0),
            Direction::West => (-1, 0),
        }
    }

    pub open spec fn spec_opposite(self) -> Direction {
        match self {
            Direction::North => Direction::South,
            Direction::South => Direction::North,
            Direction::East => Direction::West,
            Direction::West => Direction::East,
        }
    }

    /// The direction pointing the other way along the same axis.
    pub fn opposite(self) -> (r: Direction)
        ensures
            r == self.spec_opposite(),
    {
        match self {
            Direction::North => Direction::South,
            Direction::South => Direction::North,
            Direction::East => Direction::West,
            Direction::West => Direction::East,
        }
    }

    pub open spec fn spec_perpendicular_pair(self) -> (Direction, Direction) {
        match self {
            Direction::East | Direction::West => (Direction::North, Direction::South),
            Direction::North | Direction::South => (Direction::East, Direction::West),
        }
    }

    /// The two directions orthogonal to this one's axis, the pair every
    /// technique uses to branch sideways off a primary line.
    pub fn perpendicular_pair(self) -> (r: (Direction, Direction))
        ensures
            r == self.spec_perpendicular_pair(),
    {
        match self {
            Direction::East | Direction::West => (Direction::North, Direction::South),
            Direction::North | Direction::South => (Direction::East, Direction::West),
        }
    }
}

/// The position `n` steps from `c` along `d`, over unbounded integers.
pub open spec fn spec_shift(d: Direction, c: (int, int, int), n: int) -> (int, int, int) {
    (c.0 + d.spec_delta().0 * n, c.1, c.2 + d.spec_delta().1 * n)
}

/// The mathematical value of an executable coordinate.
pub open spec fn view3(c: Coord) -> (int, int, int) {
    (c.0 as int, c.1 as int, c.2 as int)
}

/// Translate `coords` by `amount` along `direction`'s axis; a negative
/// `amount` moves backward.
pub fn shift_coords(direction: Direction, coords: Coord, amount: i64) -> (r: Coord)
    requires
        i64::MIN <= coords.0 + direction.spec_delta().0 * amount <= i64::MAX,
        i64::MIN <= coords.2 + direction.spec_delta().1 * amount <= i64::MAX,
    ensures
        view3(r) == spec_shift(direction, view3(coords), amount as int),
{
    match direction {
        Direction::North => (coords.0, coords.1, coords.2 - amount),
        Direction::South => (coords.0, coords.1, coords.2 + amount),
        Direction::East => (coords.0 + amount, coords.1, coords.2),
        Direction::West => (coords.0 - amount, coords.1, coords.2),
    }
}

/// Law: shifting `n` steps along `d` and then `n` steps along the opposite
/// direction returns to the starting coordinate, for every direction,
/// coordinate and step count.
pub proof fn lemma_shift_round_trip(d: Direction, c: (int, int, int), n: int)
    ensures
        spec_shift(d.spec_opposite(), spec_shift(d, c, n), n) == c,
{
}

} // verus!
