//! Grid coordinates and the quadrants around a reference point.
//!
//! The device's convention is kept as it is: a smaller `x` is further north
//! and a smaller `y` is further east.
//!
//! ```text
//!        (x < P.x)
//!            N
//!            ^
//!            |
//! (y > P.y)  |  (y < P.y)
//!     W <----P----> E
//!            |
//!            v
//!            S
//!        (x > P.x)
//! ```

use vstd::prelude::*;
use vstd::std_specs::convert::FromSpecImpl;

verus! {

/// One of the four quadrants around a partition point.
#[derive(Clone, Copy, Debug, PartialEq, Eq, Hash, Structural)]
pub enum Segment {
    Northeast,
    Southeast,
    Southwest,
    Northwest,
}

impl Segment {
    /// The quadrant on the given side of each cut line.
    pub open spec fn of_sides(north: bool, east: bool) -> Segment {
        if north {
            if east {
                Segment::Northeast
            } else {
                Segment::Northwest
            }
        } else {
            if east {
                Segment::Southeast
            } else {
                Segment::Southwest
            }
        }
    }

    /// Whether this quadrant lies on the northern side of the horizontal cut.
    pub open spec fn northern(self) -> bool {
        self == Segment::Northeast || self == Segment::Northwest
    }

    /// Whether this quadrant lies on the eastern side of the vertical cut.
    pub open spec fn eastern(self) -> bool {
        self == Segment::Northeast || self == Segment::Southeast
    }

    /// Names the quadrant that lies on the given side of each cut line.
    pub fn from_sides(north: bool, east: bool) -> (s: Segment)
        ensures
            s == Segment::of_sides(north, east),
            s.northern() == north,
            s.eastern() == east,
    {
        if north {
            if east {
                Segment::Northeast
            } else {
                Segment::Northwest
            }
        } else {
            if east {
                Segment::Southeast
            } else {
                Segment::Southwest
            }
        }
    }
}

/// A location on the device grid. `z` selects a resource inside the cell and
/// plays no part in partitioning.
#[derive(Clone, Copy, Debug, PartialEq, Eq, Hash, Structural)]
pub struct Loc {
    pub x: i32,
    pub y: i32,
    pub z: i32,
}

/// A cell of the device grid.
#[derive(Clone, Copy, Debug, PartialEq, Eq, Hash, Structural)]
pub struct Coord {
    pub x: i32,
    pub y: i32,
}

impl Coord {
    pub fn new(x: i32, y: i32) -> (c: Self)
        ensures
            c.x == x,
            c.y == y,
    {
        Self { x, y }
    }

    /// Strictly north of `other`: a point on the line is on neither side.
    pub open spec fn north_of(self, other: Coord) -> bool {
        self.x < other.x
    }

    pub open spec fn east_of(self, other: Coord) -> bool {
        self.y < other.y
    }

    pub open spec fn south_of(self, other: Coord) -> bool {
        self.x > other.x
    }

    pub open spec fn west_of(self, other: Coord) -> bool {
        self.y > other.y
    }

    /// The quadrant of `self` around `reference`. A point on a cut line
    /// counts as south, respectively west.
    pub open spec fn quadrant(self, reference: Coord) -> Segment {
        Segment::of_sides(self.north_of(reference), self.east_of(reference))
    }

    pub fn is_north_of(&self, other: &Self) -> (b: bool)
        ensures
            b == self.north_of(*other),
    {
        self.x < other.x
    }

    pub fn is_east_of(&self, other: &Self) -> (b: bool)
        ensures
            b == self.east_of(*other),
    {
        self.y < other.y
    }

    pub fn is_south_of(&self, other: &Self) -> (b: bool)
        ensures
            b == self.south_of(*other),
    {
        self.x > other.x
    }

    pub fn is_west_of(&self, other: &Self) -> (b: bool)
        ensures
            b == self.west_of(*other),
    {
        self.y > other.y
    }

    pub fn segment_from(&self, other: &Self) -> (s: Segment)
        ensures
            s == self.quadrant(*other),
    {
        Segment::from_sides(self.is_north_of(other), self.is_east_of(other))
    }
}

impl Loc {
    /// The grid cell of this location.
    pub open spec fn coord(self) -> Coord {
        Coord { x: self.x, y: self.y }
    }
}

impl FromSpecImpl<Loc> for Coord {
    open spec fn obeys_from_spec() -> bool {
        true
    }

    open spec fn from_spec(other: Loc) -> Coord {
        other.coord()
    }
}

impl From<Loc> for Coord {
    fn from(other: Loc) -> (c: Coord) {
        Coord { x: other.x, y: other.y }
    }
}

/// The orientation predicates are strict and exclude one another, and the
/// quadrant is northern exactly where the point is north of the reference,
/// eastern exactly where it is east of it.
pub proof fn lemma_quadrant_sides(point: Coord, reference: Coord)
    ensures
        !(point.north_of(reference) && point.south_of(reference)),
        !(point.east_of(reference) && point.west_of(reference)),
        point.north_of(reference) == reference.south_of(point),
        point.east_of(reference) == reference.west_of(point),
        point.quadrant(reference).northern() == point.north_of(reference),
        point.quadrant(reference).eastern() == point.east_of(reference),
        !reference.north_of(reference) && !reference.east_of(reference),
        reference.quadrant(reference) == Segment::Southwest,
{
}

} // verus!
