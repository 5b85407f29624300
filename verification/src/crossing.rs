//! How one arc meets the two cut lines: whether it crosses them, in which
//! cells it does, and from which buckets its pips are chosen.

use vstd::prelude::*;
use crate::arc::{Arc, Heading};
use crate::geometry::{Coord, Segment};
use crate::line::{
    clamp_to, clamped, crossing_over_x, crossing_over_y, crossing_x, crossing_y, midpoint,
    midpoint_of,
};

verus! {

/// The extent of the device grid. Both dimensions are exclusive upper
/// bounds; the cells in which an arc may cross a cut line are those of
/// `[1, dim_x - 1] x [1, dim_y - 1]`.
#[derive(Clone, Copy, Debug, PartialEq, Eq, Hash, Structural)]
pub struct Grid {
    pub dim_x: i32,
    pub dim_y: i32,
}

impl Grid {
    /// The grid has at least one cell in which an arc may cross.
    pub open spec fn wf(self) -> bool {
        self.dim_x >= 2 && self.dim_y >= 2
    }

    /// Whether `cell` is one in which an arc may cross a cut line.
    pub open spec fn interior(self, cell: Coord) -> bool {
        &&& 1 <= cell.x <= self.dim_x - 1
        &&& 1 <= cell.y <= self.dim_y - 1
    }

    /// The cell nearest to `(x, y)` in which an arc may cross.
    pub open spec fn nearest(self, x: int, y: int) -> Coord {
        Coord {
            x: clamped(x, 1, self.dim_x - 1) as i32,
            y: clamped(y, 1, self.dim_y - 1) as i32,
        }
    }

    pub fn is_valid(&self) -> (b: bool)
        ensures
            b == self.wf(),
    {
        self.dim_x >= 2 && self.dim_y >= 2
    }

    /// Moves `(x, y)` to the nearest cell in which an arc may cross.
    pub fn clamp(&self, x: i128, y: i128) -> (cell: Coord)
        requires
            self.wf(),
        ensures
            cell == self.nearest(x as int, y as int),
            self.interior(cell),
    {
        Coord::new(clamp_to(x, 1, self.dim_x - 1), clamp_to(y, 1, self.dim_y - 1))
    }
}

/// The ways in which an arc can meet the cut lines through a point.
#[derive(Clone, Copy, Debug, PartialEq, Eq, Hash, Structural)]
pub enum Crossing {
    /// Source and sink lie in one quadrant.
    Within,
    /// Source and sink lie on different sides north to south only.
    Vertical,
    /// Source and sink lie on different sides east to west only.
    Horizontal,
    /// Source and sink lie in opposite quadrants.
    Diagonal,
}

/// How `arc` meets the cut lines through `point`.
pub open spec fn crossing_of(arc: Arc, point: Coord) -> Crossing {
    let source = arc.source_loc.coord();
    let sink = arc.sink_loc.coord();
    let north_south = source.north_of(point) != sink.north_of(point);
    let east_west = source.east_of(point) != sink.east_of(point);
    if north_south {
        if east_west {
            Crossing::Diagonal
        } else {
            Crossing::Vertical
        }
    } else {
        if east_west {
            Crossing::Horizontal
        } else {
            Crossing::Within
        }
    }
}

/// The direction of the pips that carry an arc across the line `x = X`: south
/// for a source on the northern side, north otherwise.
pub open spec fn heading_north_south(source_is_north: bool) -> Heading {
    if source_is_north {
        Heading::South
    } else {
        Heading::North
    }
}

/// The direction of the pips that carry an arc across the line `y = Y`: west
/// for a source on the eastern side, east otherwise.
pub open spec fn heading_east_west(source_is_east: bool) -> Heading {
    if source_is_east {
        Heading::West
    } else {
        Heading::East
    }
}

/// The tag of the middle piece of an arc that is cut twice, for a source on
/// the given sides and a first crossing cell east of the point or not.
pub open spec fn middle_tag(source_is_north: bool, source_is_east: bool, pip_is_east: bool) -> Segment {
    if pip_is_east == source_is_east {
        Segment::of_sides(!source_is_north, source_is_east)
    } else {
        Segment::of_sides(source_is_north, !source_is_east)
    }
}

/// What a pass does with one arc, as far as geometry decides it.
#[derive(Clone, Copy, Debug, PartialEq, Eq, Hash, Structural)]
pub enum Plan {
    /// The arc stays whole and goes to `segment`.
    Keep { segment: Segment },
    /// The arc is cut once, at a pip of the bucket of `heading` at `cell`;
    /// its head goes to `first` and its tail to `second`.
    Cut { heading: Heading, cell: Coord, first: Segment, second: Segment },
    /// The arc is cut twice: at a pip of the bucket of `east_west` at
    /// `on_x`, the crossing of the line `x = X`, and at a pip of the bucket
    /// of `north_south` at `on_y`, the crossing of the line `y = Y`.
    CutTwice { east_west: Heading, on_x: Coord, north_south: Heading, on_y: Coord },
}

/// The plan of a pass around `point` for `arc`.
pub open spec fn plan_of(arc: Arc, point: Coord, grid: Grid) -> Plan {
    let source = arc.source_loc.coord();
    let sink = arc.sink_loc.coord();
    let north = source.north_of(point);
    let east = source.east_of(point);
    match crossing_of(arc, point) {
        Crossing::Within => Plan::Keep { segment: source.quadrant(point) },
        Crossing::Vertical => Plan::Cut {
            heading: heading_north_south(north),
            cell: grid.nearest(point.x as int, midpoint(source.y as int, sink.y as int)),
            first: Segment::of_sides(north, east),
            second: Segment::of_sides(!north, east),
        },
        Crossing::Horizontal => Plan::Cut {
            heading: heading_east_west(east),
            cell: grid.nearest(midpoint(source.x as int, sink.x as int), point.y as int),
            first: Segment::of_sides(north, east),
            second: Segment::of_sides(north, !east),
        },
        Crossing::Diagonal => Plan::CutTwice {
            east_west: heading_east_west(east),
            on_x: grid.nearest(
                point.x as int,
                crossing_over_x(arc.source_loc, arc.sink_loc, point.x as int),
            ),
            north_south: heading_north_south(north),
            on_y: grid.nearest(
                crossing_over_y(arc.source_loc, arc.sink_loc, point.y as int),
                point.y as int,
            ),
        },
    }
}

/// Every cell in which a plan cuts lies in the interior of the grid.
pub open spec fn plan_inside(plan: Plan, grid: Grid) -> bool {
    match plan {
        Plan::Keep { .. } => true,
        Plan::Cut { cell, .. } => grid.interior(cell),
        Plan::CutTwice { on_x, on_y, .. } => grid.interior(on_x) && grid.interior(on_y),
    }
}

/// Tells how `arc` meets the cut lines through `point`.
pub fn classify(arc: &Arc, point: Coord) -> (kind: Crossing)
    ensures
        kind == crossing_of(*arc, point),
{
    let source: Coord = Coord::new(arc.source_loc.x, arc.source_loc.y);
    let sink: Coord = Coord::new(arc.sink_loc.x, arc.sink_loc.y);
    let north_south = source.is_north_of(&point) != sink.is_north_of(&point);
    let east_west = source.is_east_of(&point) != sink.is_east_of(&point);
    if north_south {
        if east_west {
            Crossing::Diagonal
        } else {
            Crossing::Vertical
        }
    } else {
        if east_west {
            Crossing::Horizontal
        } else {
            Crossing::Within
        }
    }
}

/// Decides what a pass around `point` does with `arc`: where it is cut, from
/// which buckets, and where its pieces go. Every cell it names lies in
/// `[1, dim_x - 1] x [1, dim_y - 1]`.
pub fn plan(arc: &Arc, point: Coord, grid: Grid) -> (plan: Plan)
    requires
        grid.wf(),
    ensures
        plan == plan_of(*arc, point, grid),
        plan_inside(plan, grid),
{
    let source: Coord = Coord::new(arc.source_loc.x, arc.source_loc.y);
    let sink: Coord = Coord::new(arc.sink_loc.x, arc.sink_loc.y);
    let north = source.is_north_of(&point);
    let east = source.is_east_of(&point);
    let across_x = if north {
        Heading::South
    } else {
        Heading::North
    };
    let across_y = if east {
        Heading::West
    } else {
        Heading::East
    };
    match classify(arc, point) {
        Crossing::Within => Plan::Keep { segment: source.segment_from(&point) },
        Crossing::Vertical => Plan::Cut {
            heading: across_x,
            cell: grid.clamp(point.x as i128, midpoint_of(source.y, sink.y) as i128),
            first: Segment::from_sides(north, east),
            second: Segment::from_sides(!north, east),
        },
        Crossing::Horizontal => Plan::Cut {
            heading: across_y,
            cell: grid.clamp(midpoint_of(source.x, sink.x) as i128, point.y as i128),
            first: Segment::from_sides(north, east),
            second: Segment::from_sides(north, !east),
        },
        Crossing::Diagonal => Plan::CutTwice {
            east_west: across_y,
            on_x: grid.clamp(point.x as i128, crossing_x(arc.source_loc, arc.sink_loc, point.x)),
            north_south: across_x,
            on_y: grid.clamp(crossing_y(arc.source_loc, arc.sink_loc, point.y), point.y as i128),
        },
    }
}

/// The tags of the three pieces of an arc that is cut twice: the quadrant of
/// the source, the quadrant next to it along the first cut, and the
/// opposite quadrant.
pub fn diagonal_tags(source_is_north: bool, source_is_east: bool, pip_is_east: bool) -> (tags: (
    Segment,
    Segment,
    Segment,
))
    ensures
        tags.0 == Segment::of_sides(source_is_north, source_is_east),
        tags.1 == middle_tag(source_is_north, source_is_east, pip_is_east),
        tags.2 == Segment::of_sides(!source_is_north, !source_is_east),
{
    match (source_is_north, source_is_east, pip_is_east) {
        (true, true, true) => (Segment::Northeast, Segment::Southeast, Segment::Southwest),
        (true, true, false) => (Segment::Northeast, Segment::Northwest, Segment::Southwest),
        (true, false, true) => (Segment::Northwest, Segment::Northeast, Segment::Southeast),
        (true, false, false) => (Segment::Northwest, Segment::Southwest, Segment::Southeast),
        (false, true, true) => (Segment::Southeast, Segment::Northeast, Segment::Northwest),
        (false, true, false) => (Segment::Southeast, Segment::Southwest, Segment::Northwest),
        (false, false, true) => (Segment::Southwest, Segment::Southeast, Segment::Northeast),
        (false, false, false) => (Segment::Southwest, Segment::Northwest, Segment::Northeast),
    }
}

} // verus!
