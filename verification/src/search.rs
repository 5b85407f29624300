//! The search for a partition point that spreads the arcs evenly.
//!
//! The search starts at the centre of the bounds. After each pass that is
//! not good enough it moves the point toward the heavier half, by a step
//! that halves each time, and it ends with the pass at which the step along
//! `x` is zero.

use vstd::prelude::*;
use vstd::arithmetic::power2::{lemma2_to64, lemma_pow2_pos, lemma_pow2_unfold, pow2};
use crate::arc::{Arc, Bounds, Pip, WireId};
use crate::balance::{balanced, is_balanced};
use crate::crossing::Grid;
use crate::geometry::{Coord, Segment};
use crate::pass::{partition, pass, tagged, MissingBucket, Quadrants};
use crate::pip_index::{fresh_buckets, is_scorer, scorer_of};

verus! {

/// What a search works on.
pub struct Task {
    pub grid: Grid,
    pub scorer: spec_fn(Pip, usize, WireId, WireId) -> u64,
    pub arcs: Seq<Arc>,
    pub pips: Seq<Pip>,
    pub bounds: Bounds,
}

/// What a search finds: the point, the pieces of the pass around it, and the
/// number of passes made.
pub struct Found {
    pub x: i32,
    pub y: i32,
    pub pieces: Seq<(Segment, Arc)>,
    pub passes: nat,
}

/// The outcome of a search, as it is handed out.
#[derive(Debug)]
pub struct PartitionPoint {
    pub x: i32,
    pub y: i32,
    pub quadrants: Quadrants,
    /// The number of partition passes that the search made.
    pub passes: u32,
}

/// The move along one axis: by `step` toward the side with more arcs, none
/// between equal sides. `lower` counts the arcs on the side of the smaller
/// coordinates.
pub open spec fn shift(lower: int, higher: int, step: int) -> int {
    if lower < higher {
        step
    } else if lower > higher {
        -step
    } else {
        0
    }
}

/// The number of pieces that go to `segment`.
pub open spec fn load_in(pieces: Seq<(Segment, Arc)>, segment: Segment) -> int {
    tagged(pieces, segment).len() as int
}

/// Whether the pieces are spread well enough over the four quadrants.
pub open spec fn good_enough(pieces: Seq<(Segment, Arc)>) -> bool {
    balanced(
        load_in(pieces, Segment::Northeast),
        load_in(pieces, Segment::Southeast),
        load_in(pieces, Segment::Southwest),
        load_in(pieces, Segment::Northwest),
    )
}

/// The point after a pass that was not good enough.
pub open spec fn moved(pieces: Seq<(Segment, Arc)>, x: i32, y: i32, dx: int, dy: int) -> (int, int) {
    let ne = load_in(pieces, Segment::Northeast);
    let se = load_in(pieces, Segment::Southeast);
    let sw = load_in(pieces, Segment::Southwest);
    let nw = load_in(pieces, Segment::Northwest);
    (x + shift(ne + nw, se + sw, dx), y + shift(ne + se, nw + sw, dy))
}

/// The pass of a task around `(x, y)`, from a fresh index.
pub open spec fn pass_at(task: Task, x: i32, y: i32) -> Result<crate::pass::Sorting, MissingBucket> {
    pass(
        fresh_buckets(task.pips, Coord { x, y }, task.bounds),
        task.arcs,
        Coord { x, y },
        task.grid,
        task.scorer,
    )
}

/// The search from `(x, y)` with steps `dx` and `dy`.
pub open spec fn search(task: Task, x: i32, y: i32, dx: int, dy: int) -> Result<Found, MissingBucket>
    decreases dx,
{
    match pass_at(task, x, y) {
        Err(missing) => Err(missing),
        Ok(sorting) => {
            if dx <= 0 || good_enough(sorting.pieces) {
                Ok(Found { x, y, pieces: sorting.pieces, passes: 1 })
            } else {
                let next = moved(sorting.pieces, x, y, dx, dy);
                later(search(task, next.0 as i32, next.1 as i32, dx / 2, dy / 2), 1)
            }
        },
    }
}

/// The same outcome after `passes` more passes.
pub open spec fn later(outcome: Result<Found, MissingBucket>, passes: nat) -> Result<
    Found,
    MissingBucket,
> {
    match outcome {
        Err(missing) => Err(missing),
        Ok(found) => Ok(
            Found { x: found.x, y: found.y, pieces: found.pieces, passes: found.passes + passes },
        ),
    }
}

/// The number of times a step can be halved before it is zero.
pub open spec fn halvings(step: nat) -> nat
    decreases step,
{
    if step == 0 {
        0
    } else {
        1 + halvings(step / 2)
    }
}

/// A step below `2^k` is zero after `k` halvings.
pub proof fn lemma_halvings(step: nat, k: nat)
    requires
        step < pow2(k),
    ensures
        halvings(step) <= k,
    decreases k,
{
    if step != 0 {
        if k == 0 {
            lemma2_to64();
        } else {
            lemma_pow2_unfold(k);
            lemma_halvings(step / 2, (k - 1) as nat);
        }
    }
}

/// A search makes at most one pass more than its first step can be halved.
pub proof fn lemma_search_passes(task: Task, x: i32, y: i32, dx: int, dy: int)
    requires
        dx >= 0,
    ensures
        search(task, x, y, dx, dy) matches Ok(found) ==> 1 <= found.passes <= halvings(dx as nat)
            + 1,
    decreases dx,
{
    if let Ok(sorting) = pass_at(task, x, y) {
        if !(dx <= 0 || good_enough(sorting.pieces)) {
            let next = moved(sorting.pieces, x, y, dx, dy);
            lemma_search_passes(task, next.0 as i32, next.1 as i32, dx / 2, dy / 2);
        }
    }
}

impl PartitionPoint {
    /// This outcome is what the search found.
    pub open spec fn is_found(self, found: Found, arcs: Seq<Arc>) -> bool {
        &&& self.x == found.x
        &&& self.y == found.y
        &&& self.passes == found.passes
        &&& self.quadrants.holds(found.pieces)
        &&& self.quadrants.counts(arcs, Coord { x: found.x, y: found.y })
    }
}

/// The larger of the two extents of the bounds.
pub open spec fn extent(x_start: int, x_finish: int, y_start: int, y_finish: int) -> int {
    if x_finish - x_start >= y_finish - y_start {
        x_finish - x_start
    } else {
        y_finish - y_start
    }
}

/// Searches for a point that divides `arcs` evenly into four quadrants.
///
/// The search starts at the centre of the given bounds with steps of a
/// quarter of their extents. Each pass sorts all arcs around the current
/// point, with a fresh index of the pips inside the bounds. A pass whose
/// distortion is at most five percent ends the search. Otherwise the point
/// moves by one step toward the half with more arcs along each axis and the
/// steps are halved; the pass at which the step along `x` is zero ends the
/// search whatever its distortion. A pass that fails ends the search with
/// its error.
pub fn find_partition_point<F: Fn(Pip, usize, WireId, WireId) -> u64>(
    grid: Grid,
    score: &F,
    arcs: &[Arc],
    pips: &[Pip],
    x_start: i32,
    x_finish: i32,
    y_start: i32,
    y_finish: i32,
) -> (result: Result<PartitionPoint, MissingBucket>)
    requires
        grid.wf(),
        is_scorer(*score),
        x_start <= x_finish,
        y_start <= y_finish,
    ensures
        match search(
            Task {
                grid,
                scorer: scorer_of(*score),
                arcs: arcs@,
                pips: pips@,
                bounds: Bounds { x_start, x_finish, y_start, y_finish },
            },
            (x_start + (x_finish - x_start) / 2) as i32,
            (y_start + (y_finish - y_start) / 2) as i32,
            (x_finish - x_start) / 4,
            (y_finish - y_start) / 4,
        ) {
            Err(missing) => result == Err::<PartitionPoint, MissingBucket>(missing),
            Ok(found) => result is Ok && result->Ok_0.is_found(found, arcs@),
        },
        result matches Ok(point) ==> {
            &&& x_start <= point.x <= x_finish
            &&& y_start <= point.y <= y_finish
            &&& point.quadrants.total() == arcs.len() + point.quadrants.vertical
                + point.quadrants.horizontal + 2 * point.quadrants.diagonal
            &&& 1 <= point.passes <= halvings(((x_finish - x_start) / 4) as nat) + 1
            &&& forall|k: nat|
                extent(x_start as int, x_finish as int, y_start as int, y_finish as int) <= #[trigger] pow2(
                    k,
                ) ==> point.passes <= k + 1
        },
{
    let bounds = Bounds { x_start, x_finish, y_start, y_finish };
    let width: i64 = x_finish as i64 - x_start as i64;
    let height: i64 = y_finish as i64 - y_start as i64;
    let mut x: i32 = (x_start as i64 + width / 2) as i32;
    let mut y: i32 = (y_start as i64 + height / 2) as i32;
    let mut dx: i32 = (width / 4) as i32;
    let mut dy: i32 = (height / 4) as i32;
    let mut passes: u32 = 0;
    let ghost task = Task { grid, scorer: scorer_of(*score), arcs: arcs@, pips: pips@, bounds };
    let ghost whole = search(task, x, y, dx as int, dy as int);
    let ghost first_step = dx as nat;
    proof {
        lemma2_to64();
        lemma_halvings(first_step, 31);
        assert forall|k: nat|
            extent(x_start as int, x_finish as int, y_start as int, y_finish as int) <= #[trigger] pow2(
                k,
            ) implies halvings(first_step) <= k by {
            lemma_pow2_pos(k);
            lemma_halvings(first_step, k);
        }
        assert(x == (x_start + (x_finish - x_start) / 2) as i32);
        assert(y == (y_start + (y_finish - y_start) / 2) as i32);
        assert(dx == (x_finish - x_start) / 4);
        assert(dy == (y_finish - y_start) / 4);
        assert(whole =~= later(whole, 0));
    }
    while dx != 0
        invariant
            grid.wf(),
            is_scorer(*score),
            task == (Task { grid, scorer: scorer_of(*score), arcs: arcs@, pips: pips@, bounds }),
            bounds == (Bounds { x_start, x_finish, y_start, y_finish }),
            0 <= dx,
            0 <= dy,
            x_start + 2 * dx <= x <= x_finish - 2 * dx,
            y_start + 2 * dy <= y <= y_finish - 2 * dy,
            whole == search(
                task,
                (x_start + (x_finish - x_start) / 2) as i32,
                (y_start + (y_finish - y_start) / 2) as i32,
                (x_finish - x_start) / 4,
                (y_finish - y_start) / 4,
            ),
            whole == later(search(task, x, y, dx as int, dy as int), passes as nat),
            first_step == (x_finish - x_start) / 4,
            forall|k: nat|
                extent(x_start as int, x_finish as int, y_start as int, y_finish as int) <= #[trigger] pow2(
                    k,
                ) ==> halvings(first_step) <= k,
            passes + halvings(dx as nat) == halvings(first_step),
            halvings(first_step) <= 31,
        decreases dx,
    {
        let quadrants = match partition(grid, score, arcs, pips, x, y, bounds) {
            Err(missing) => {
                return Err(missing);
            },
            Ok(quadrants) => quadrants,
        };
        let ghost pieces = pass_at(task, x, y)->Ok_0.pieces;
        let ghost next = moved(pieces, x, y, dx as int, dy as int);
        proof {
            let deeper = search(task, next.0 as i32, next.1 as i32, dx as int / 2, dy as int / 2);
            assert(later(later(deeper, 1), passes as nat) =~= later(deeper, (passes + 1) as nat));
        }
        passes = passes + 1;
        let ne = quadrants.ne.len();
        let se = quadrants.se.len();
        let sw = quadrants.sw.len();
        let nw = quadrants.nw.len();
        if is_balanced(ne, se, sw, nw) {
            return Ok(PartitionPoint { x, y, quadrants, passes });
        }
        let north = ne as u128 + nw as u128;
        let south = se as u128 + sw as u128;
        let east = ne as u128 + se as u128;
        let west = nw as u128 + sw as u128;
        if north < south {
            x = x + dx;
        } else if north > south {
            x = x - dx;
        }
        if east < west {
            y = y + dy;
        } else if east > west {
            y = y - dy;
        }
        dx = dx / 2;
        dy = dy / 2;
    }
    match partition(grid, score, arcs, pips, x, y, bounds) {
        Err(missing) => Err(missing),
        Ok(quadrants) => Ok(PartitionPoint { x, y, quadrants, passes: passes + 1 }),
    }
}

} // verus!
