//! Coordinate type, axes and the six face directions between octree cells.

use vstd::prelude::*;

verus! {

/// Coordinate type for the domain.
#[derive(Debug, Clone, Copy, PartialEq, Eq, Structural)]
pub enum CoordinateType {
    Cartesian,
    Cylindrical,
    Spherical,
}

impl Default for CoordinateType {
    fn default() -> (r: Self)
        ensures
            r == CoordinateType::Cartesian,
    {
        CoordinateType::Cartesian
    }
}

/// Axis for the domain.
#[derive(Debug, Clone, Copy, PartialEq, Eq, Structural)]
pub enum Axis {
    X,
    Y,
    Z,
}

/// One of the six axis-aligned face directions between octree cells.
#[derive(Debug, Clone, Copy, PartialEq, Eq, Structural)]
pub enum Direction {
    XMinus,
    XPlus,
    YMinus,
    YPlus,
    ZMinus,
    ZPlus,
}

/// Component index of an axis: X→0, Y→1, Z→2.
pub open spec fn axis_index(a: Axis) -> int {
    match a {
        Axis::X => 0,
        Axis::Y => 1,
        Axis::Z => 2,
    }
}

/// The axis a direction is aligned with.
pub open spec fn direction_axis(d: Direction) -> Axis {
    match d {
        Direction::XMinus | Direction::XPlus => Axis::X,
        Direction::YMinus | Direction::YPlus => Axis::Y,
        Direction::ZMinus | Direction::ZPlus => Axis::Z,
    }
}

/// Whether a direction points towards increasing coordinates.
pub open spec fn direction_is_plus(d: Direction) -> bool {
    match d {
        Direction::XPlus | Direction::YPlus | Direction::ZPlus => true,
        _ => false,
    }
}

/// The direction along `a` towards decreasing (`plus == false`) or increasing coordinates.
pub open spec fn direction_of(a: Axis, plus: bool) -> Direction {
    match a {
        Axis::X => if plus { Direction::XPlus } else { Direction::XMinus },
        Axis::Y => if plus { Direction::YPlus } else { Direction::YMinus },
        Axis::Z => if plus { Direction::ZPlus } else { Direction::ZMinus },
    }
}

impl Axis {
    /// All axes.
    pub const ALL: [Axis; 3] = [Axis::X, Axis::Y, Axis::Z];

    /// Index for 3D component access: X→0, Y→1, Z→2.
    pub fn as_index(self) -> (r: usize)
        ensures
            r == axis_index(self),
    {
        match self {
            Axis::X => 0,
            Axis::Y => 1,
            Axis::Z => 2,
        }
    }

    /// Splits the axis into the two directions that define it (minus side first).
    pub fn split_into_directions(self) -> (r: (Direction, Direction))
        ensures
            r == (direction_of(self, false), direction_of(self, true)),
    {
        match self {
            Axis::X => (Direction::XMinus, Direction::XPlus),
            Axis::Y => (Direction::YMinus, Direction::YPlus),
            Axis::Z => (Direction::ZMinus, Direction::ZPlus),
        }
    }
}

impl Direction {
    /// All directions.
    pub const ALL: [Direction; 6] = [
        Direction::XMinus,
        Direction::XPlus,
        Direction::YMinus,
        Direction::YPlus,
        Direction::ZMinus,
        Direction::ZPlus,
    ];

    /// Returns the coordinate axis this direction is aligned with.
    pub fn axis(self) -> (r: Axis)
        ensures
            r == direction_axis(self),
    {
        match self {
            Direction::XMinus | Direction::XPlus => Axis::X,
            Direction::YMinus | Direction::YPlus => Axis::Y,
            Direction::ZMinus | Direction::ZPlus => Axis::Z,
        }
    }

    /// Returns the opposite face direction (same axis, inverted sign).
    pub fn opposite(self) -> (r: Self)
        ensures
            r == direction_of(direction_axis(self), !direction_is_plus(self)),
    {
        match self {
            Direction::XMinus => Direction::XPlus,
            Direction::XPlus => Direction::XMinus,
            Direction::YMinus => Direction::YPlus,
            Direction::YPlus => Direction::YMinus,
            Direction::ZMinus => Direction::ZPlus,
            Direction::ZPlus => Direction::ZMinus,
        }
    }

    /// Unit sign along the axis: `-1` for the minus directions, `+1` for the plus directions.
    pub fn sign(self) -> (r: i8)
        ensures
            r == (if direction_is_plus(self) { 1int } else { -1int }),
    {
        match self {
            Direction::XMinus | Direction::YMinus | Direction::ZMinus => -1,
            Direction::XPlus | Direction::YPlus | Direction::ZPlus => 1,
        }
    }
}

/// A direction is fixed by its axis and side; the opposite of the opposite is the direction
/// itself, on the same axis with the opposite sign.
pub proof fn lemma_direction_opposite(d: Direction)
    ensures
        direction_of(direction_axis(d), direction_is_plus(d)) == d,
        direction_axis(direction_of(direction_axis(d), !direction_is_plus(d))) == direction_axis(d),
        direction_is_plus(direction_of(direction_axis(d), !direction_is_plus(d))) == !direction_is_plus(d),
        direction_of(direction_axis(d), !!direction_is_plus(d)) == d,
{
}

} // verus!
