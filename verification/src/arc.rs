//! Routing requests and the routing switches that can carry them across a
//! cut line.

use vstd::prelude::*;
use crate::geometry::{Coord, Loc};

verus! {

/// The device's name for a wire.
#[derive(Clone, Copy, Debug, PartialEq, Eq, Hash, Structural)]
pub struct WireId(pub u64);

/// The device's name for a pip.
#[derive(Clone, Copy, Debug, PartialEq, Eq, Hash, Structural)]
pub struct PipId(pub u64);

/// One of the four directions in which a pip can carry a signal.
#[derive(Clone, Copy, Debug, PartialEq, Eq, Hash, Structural)]
pub enum Heading {
    North,
    East,
    South,
    West,
}

/// A programmable routing switch, with what the device reports of it: where
/// it sits, which way it carries a signal, and the two wires it joins.
#[derive(Clone, Copy, Debug, PartialEq, Eq, Hash, Structural)]
pub struct Pip {
    pub id: PipId,
    pub loc: Loc,
    /// Negative for a north-bound pip, positive for a south-bound one.
    pub dir_x: i32,
    /// Negative for an east-bound pip, positive for a west-bound one.
    pub dir_y: i32,
    pub src_wire: WireId,
    pub dst_wire: WireId,
}

impl Pip {
    /// Whether the pip carries a signal in the given direction. A pip with
    /// two non-zero components heads two ways at once.
    pub open spec fn heads(self, heading: Heading) -> bool {
        match heading {
            Heading::North => self.dir_x < 0,
            Heading::South => self.dir_x > 0,
            Heading::East => self.dir_y < 0,
            Heading::West => self.dir_y > 0,
        }
    }

    /// A pip without direction connects wires inside one cell.
    pub open spec fn internal(self) -> bool {
        self.dir_x == 0 && self.dir_y == 0
    }

    pub fn is_heading(&self, heading: Heading) -> (b: bool)
        ensures
            b == self.heads(heading),
    {
        match heading {
            Heading::North => self.dir_x < 0,
            Heading::South => self.dir_x > 0,
            Heading::East => self.dir_y < 0,
            Heading::West => self.dir_y > 0,
        }
    }

    pub fn is_internal(&self) -> (b: bool)
        ensures
            b == self.internal(),
    {
        self.dir_x == 0 && self.dir_y == 0
    }
}

/// A request to route a signal from a source wire to a sink wire.
#[derive(Clone, Copy, Debug, PartialEq, Eq, Hash, Structural)]
pub struct Arc {
    pub source_wire: WireId,
    pub source_loc: Loc,
    pub sink_wire: WireId,
    pub sink_loc: Loc,
}

impl Arc {
    pub fn new(source_wire: WireId, source_loc: Loc, sink_wire: WireId, sink_loc: Loc) -> (arc:
        Self)
        ensures
            arc == (Arc { source_wire, source_loc, sink_wire, sink_loc }),
    {
        Self { source_wire, source_loc, sink_wire, sink_loc }
    }

    /// The part of the arc that leads from its source into `pip`.
    pub open spec fn head(self, pip: Pip) -> Arc {
        Arc {
            source_wire: self.source_wire,
            source_loc: self.source_loc,
            sink_wire: pip.src_wire,
            sink_loc: pip.loc,
        }
    }

    /// The part of the arc that leads from `pip` to its sink.
    pub open spec fn tail(self, pip: Pip) -> Arc {
        Arc {
            source_wire: pip.dst_wire,
            source_loc: pip.loc,
            sink_wire: self.sink_wire,
            sink_loc: self.sink_loc,
        }
    }

    /// Divides the arc at `pip`. The head ends at the pip's source wire and
    /// the tail starts at its destination wire; both meet at the pip's
    /// location. The arc itself is left as it was.
    pub fn split(&self, pip: &Pip) -> (parts: (Arc, Arc))
        ensures
            parts.0 == self.head(*pip),
            parts.1 == self.tail(*pip),
            parts.0.sink_wire == pip.src_wire,
            parts.1.source_wire == pip.dst_wire,
            parts.0.source_wire == self.source_wire,
            parts.1.sink_wire == self.sink_wire,
    {
        (
            Arc {
                source_wire: self.source_wire,
                source_loc: self.source_loc,
                sink_wire: pip.src_wire,
                sink_loc: pip.loc,
            },
            Arc {
                source_wire: pip.dst_wire,
                source_loc: pip.loc,
                sink_wire: self.sink_wire,
                sink_loc: self.sink_loc,
            },
        )
    }

    pub fn get_source_loc(&self) -> (loc: Loc)
        ensures
            loc == self.source_loc,
    {
        self.source_loc
    }

    pub fn get_sink_loc(&self) -> (loc: Loc)
        ensures
            loc == self.sink_loc,
    {
        self.sink_loc
    }

    pub fn get_source_wire(&self) -> (wire: WireId)
        ensures
            wire == self.source_wire,
    {
        self.source_wire
    }

    pub fn get_sink_wire(&self) -> (wire: WireId)
        ensures
            wire == self.sink_wire,
    {
        self.sink_wire
    }

    /// Whether both ends of the arc lie in `segment` around `point`.
    pub open spec fn within(self, segment: crate::geometry::Segment, point: Coord) -> bool {
        &&& self.source_loc.coord().quadrant(point) == segment
        &&& self.sink_loc.coord().quadrant(point) == segment
    }
}

/// The inclusive ranges of `x` and `y` in which pips are considered.
#[derive(Clone, Copy, Debug, PartialEq, Eq, Hash, Structural)]
pub struct Bounds {
    pub x_start: i32,
    pub x_finish: i32,
    pub y_start: i32,
    pub y_finish: i32,
}

impl Bounds {
    pub open spec fn holds(self, loc: Loc) -> bool {
        &&& self.x_start <= loc.x <= self.x_finish
        &&& self.y_start <= loc.y <= self.y_finish
    }

    pub fn contains(&self, loc: &Loc) -> (b: bool)
        ensures
            b == self.holds(*loc),
    {
        self.x_start <= loc.x && loc.x <= self.x_finish && self.y_start <= loc.y && loc.y
            <= self.y_finish
    }
}

} // verus!
