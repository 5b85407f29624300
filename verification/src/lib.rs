//! Quadrant partitioning of routing arcs on a two-dimensional device grid.
//!
//! A set of arcs is divided among the four quadrants around a partition
//! point. An arc that crosses a cut line is split at a pip on that line, so
//! that every piece can be routed inside one quadrant. The balance search
//! moves the partition point until the four quadrants carry similar loads.

pub mod arc;
pub mod balance;
pub mod crossing;
pub mod geometry;
pub mod laws;
pub mod line;
pub mod pass;
pub mod pip_index;
pub mod search;

pub use arc::{Arc, Bounds, Heading, Pip, PipId, WireId};
pub use crossing::Grid;
pub use geometry::{Coord, Loc, Segment};
pub use pass::{partition, MissingBucket, Quadrants};
pub use search::{find_partition_point, PartitionPoint};
