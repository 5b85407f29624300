//! What holds of every pass and of every search.

use vstd::prelude::*;
use vstd::arithmetic::power2::{lemma_pow2_pos, pow2};
use crate::arc::{Arc, Bounds, Heading, Pip, WireId};
use crate::crossing::{crossing_of, plan_inside, plan_of, Crossing, Grid, Plan};
use crate::geometry::{Coord, Segment};
use crate::pass::{
    count_crossing, lemma_choice_uses, lemma_count_crossing_push, lemma_tagged_push,
    lemma_twice_uses, pass, step, tagged, uses_at_most, MissingBucket, Sorting,
};
use crate::pip_index::{
    after_choice, bucket_scores, chosen_index, feeding, fresh_bucket, fresh_buckets,
    lemma_best_index, Buckets,
};
use crate::search::{extent, lemma_halvings, lemma_search_passes, search, Task};

verus! {

/// Every candidate is filed under the cell of its own pip.
pub open spec fn located(buckets: Buckets) -> bool {
    forall|key: (Heading, Coord), k: int|
        0 <= k < buckets[key].len() ==> (#[trigger] buckets[key][k]).pip.loc.coord() == key.1
}

/// `later` has the buckets of `earlier`, each with the same pips in the same
/// order, and no use count is smaller than it was.
pub open spec fn grown(earlier: Buckets, later: Buckets) -> bool {
    forall|key: (Heading, Coord)|
        {
            &&& (#[trigger] later[key]).len() == earlier[key].len()
            &&& forall|k: int|
                0 <= k < earlier[key].len() ==> (#[trigger] later[key][k]).pip == earlier[key][k].pip
                    && earlier[key][k].uses <= later[key][k].uses
        }
}

/// A fresh index files every pip under its own cell and has counted no use.
pub proof fn lemma_fresh_buckets(pips: Seq<Pip>, point: Coord, bounds: Bounds)
    ensures
        located(fresh_buckets(pips, point, bounds)),
        uses_at_most(fresh_buckets(pips, point, bounds), 0),
{
    let fresh = fresh_buckets(pips, point, bounds);
    assert forall|key: (Heading, Coord), k: int| 0 <= k < fresh[key].len() implies (
    #[trigger] fresh[key][k]).pip.loc.coord() == key.1 && fresh[key][k].uses <= 0 by {
        let kept = pips.filter(feeding(point, bounds, key.0, key.1));
        assert(fresh[key] == fresh_bucket(pips, point, bounds, key.0, key.1));
        assert(fresh[key].len() == kept.len());
        pips.lemma_filter_pred(feeding(point, bounds, key.0, key.1), k);
    }
}

/// A choice keeps every pip where it is and lowers no use count.
pub proof fn lemma_choice_grows(
    buckets: Buckets,
    heading: Heading,
    cell: Coord,
    source: WireId,
    sink: WireId,
    scorer: spec_fn(Pip, usize, WireId, WireId) -> u64,
    limit: int,
)
    requires
        uses_at_most(buckets, limit),
        limit < usize::MAX,
        buckets[(heading, cell)].len() > 0,
    ensures
        grown(buckets, after_choice(buckets, heading, cell, source, sink, scorer)),
        located(buckets) ==> located(after_choice(buckets, heading, cell, source, sink, scorer)),
{
    let bucket = buckets[(heading, cell)];
    lemma_best_index(bucket_scores(bucket, source, sink, scorer));
    let chosen = chosen_index(bucket, source, sink, scorer);
    let after = after_choice(buckets, heading, cell, source, sink, scorer);
    assert(bucket[chosen].uses <= limit);
    assert forall|key: (Heading, Coord)|
        {
            &&& (#[trigger] after[key]).len() == buckets[key].len()
            &&& forall|k: int|
                0 <= k < buckets[key].len() ==> (#[trigger] after[key][k]).pip == buckets[key][k].pip
                    && buckets[key][k].uses <= after[key][k].uses
        } by {
        if key != (heading, cell) {
            assert(after[key] == buckets[key]);
        }
    }
    if located(buckets) {
        assert forall|key: (Heading, Coord), k: int| 0 <= k < after[key].len() implies (
        #[trigger] after[key][k]).pip.loc.coord() == key.1 by {
            assert(after[key][k].pip == buckets[key][k].pip);
        }
    }
}

/// Growth carries over from one pair of states to the next.
pub proof fn lemma_grown_transitive(a: Buckets, b: Buckets, c: Buckets)
    requires
        grown(a, b),
        grown(b, c),
    ensures
        grown(a, c),
{
    assert forall|key: (Heading, Coord)|
        {
            &&& (#[trigger] c[key]).len() == a[key].len()
            &&& forall|k: int|
                0 <= k < a[key].len() ==> (#[trigger] c[key][k]).pip == a[key][k].pip
                    && a[key][k].uses <= c[key][k].uses
        } by {
        assert(b[key].len() == a[key].len());
        assert forall|k: int| 0 <= k < a[key].len() implies (#[trigger] c[key][k]).pip
            == a[key][k].pip && a[key][k].uses <= c[key][k].uses by {
            assert(b[key][k].pip == a[key][k].pip);
        }
    }
}

/// What one arc does to the buckets: every pip stays where it is, no use
/// count falls, and none rises by more than one.
pub proof fn lemma_step_grows(
    buckets: Buckets,
    arc: Arc,
    point: Coord,
    grid: Grid,
    scorer: spec_fn(Pip, usize, WireId, WireId) -> u64,
    limit: int,
)
    requires
        uses_at_most(buckets, limit),
        limit < usize::MAX,
    ensures
        step(buckets, arc, point, grid, scorer) matches Ok(next) ==> {
            &&& grown(buckets, next.buckets)
            &&& uses_at_most(next.buckets, limit + 1)
            &&& located(buckets) ==> located(next.buckets)
        },
{
    let source = arc.source_wire;
    let sink = arc.sink_wire;
    match plan_of(arc, point, grid) {
        Plan::Keep { segment } => {},
        Plan::Cut { heading, cell, first, second } => {
            if buckets[(heading, cell)].len() > 0 {
                lemma_choice_grows(buckets, heading, cell, source, sink, scorer, limit);
                lemma_choice_uses(buckets, heading, cell, source, sink, scorer, limit);
            }
        },
        Plan::CutTwice { east_west, on_x, north_south, on_y } => {
            if buckets[(east_west, on_x)].len() > 0 {
                let after = after_choice(buckets, east_west, on_x, source, sink, scorer);
                lemma_choice_grows(buckets, east_west, on_x, source, sink, scorer, limit);
                lemma_choice_uses(buckets, east_west, on_x, source, sink, scorer, limit);
                if after[(north_south, on_y)].len() > 0 {
                    let last = after_choice(after, north_south, on_y, source, sink, scorer);
                    assert(after[(north_south, on_y)] == buckets[(north_south, on_y)]);
                    lemma_twice_uses(
                        buckets,
                        east_west,
                        on_x,
                        north_south,
                        on_y,
                        source,
                        sink,
                        scorer,
                        limit,
                    );
                    if limit + 1 < usize::MAX {
                        lemma_choice_grows(after, north_south, on_y, source, sink, scorer, limit + 1);
                    } else {
                        lemma_second_choice_grows(
                            buckets,
                            east_west,
                            on_x,
                            north_south,
                            on_y,
                            source,
                            sink,
                            scorer,
                            limit,
                        );
                    }
                    lemma_grown_transitive(buckets, after, last);
                }
            }
        },
    }
}

proof fn lemma_second_choice_grows(
    buckets: Buckets,
    east_west: Heading,
    on_x: Coord,
    north_south: Heading,
    on_y: Coord,
    source: WireId,
    sink: WireId,
    scorer: spec_fn(Pip, usize, WireId, WireId) -> u64,
    limit: int,
)
    requires
        uses_at_most(buckets, limit),
        limit < usize::MAX,
        east_west != north_south,
        buckets[(east_west, on_x)].len() > 0,
        buckets[(north_south, on_y)].len() > 0,
    ensures
        ({
            let after = after_choice(buckets, east_west, on_x, source, sink, scorer);
            let last = after_choice(after, north_south, on_y, source, sink, scorer);
            grown(after, last) && (located(after) ==> located(last))
        }),
{
    let after = after_choice(buckets, east_west, on_x, source, sink, scorer);
    let last = after_choice(after, north_south, on_y, source, sink, scorer);
    let bucket = after[(north_south, on_y)];
    assert(bucket == buckets[(north_south, on_y)]);
    lemma_best_index(bucket_scores(bucket, source, sink, scorer));
    let chosen = chosen_index(bucket, source, sink, scorer);
    assert(bucket[chosen].uses <= limit);
    assert forall|key: (Heading, Coord)|
        {
            &&& (#[trigger] last[key]).len() == after[key].len()
            &&& forall|k: int|
                0 <= k < after[key].len() ==> (#[trigger] last[key][k]).pip == after[key][k].pip
                    && after[key][k].uses <= last[key][k].uses
        } by {
        if key != (north_south, on_y) {
            assert(last[key] == after[key]);
        }
    }
    if located(after) {
        assert forall|key: (Heading, Coord), k: int| 0 <= k < last[key].len() implies (
        #[trigger] last[key][k]).pip.loc.coord() == key.1 by {
            assert(last[key][k].pip == after[key][k].pip);
        }
    }
}

/// Within one pass no use count ever falls: what an arc sees of a pip's use
/// count is at least what every arc before it saw. No pip changes its place,
/// and after `n` arcs no use count has risen by more than `n`.
pub proof fn lemma_use_counts_grow(
    buckets: Buckets,
    arcs: Seq<Arc>,
    earlier: int,
    later: int,
    point: Coord,
    grid: Grid,
    scorer: spec_fn(Pip, usize, WireId, WireId) -> u64,
    limit: int,
)
    requires
        0 <= earlier <= later <= arcs.len(),
        uses_at_most(buckets, limit),
        limit + arcs.len() <= usize::MAX,
        pass(buckets, arcs.take(later), point, grid, scorer) is Ok,
    ensures
        pass(buckets, arcs.take(earlier), point, grid, scorer) is Ok,
        grown(
            pass(buckets, arcs.take(earlier), point, grid, scorer)->Ok_0.buckets,
            pass(buckets, arcs.take(later), point, grid, scorer)->Ok_0.buckets,
        ),
        uses_at_most(
            pass(buckets, arcs.take(later), point, grid, scorer)->Ok_0.buckets,
            limit + later,
        ),
        located(buckets) ==> located(
            pass(buckets, arcs.take(later), point, grid, scorer)->Ok_0.buckets,
        ),
    decreases later,
{
    let full = pass(buckets, arcs.take(later), point, grid, scorer)->Ok_0.buckets;
    if later == 0 {
        assert(arcs.take(0) =~= Seq::<Arc>::empty());
        assert(grown(buckets, buckets));
    } else {
        assert(arcs.take(later).drop_last() =~= arcs.take(later - 1));
        let before = pass(buckets, arcs.take(later - 1), point, grid, scorer)->Ok_0.buckets;
        if earlier == later {
            lemma_use_counts_grow(buckets, arcs, later - 1, later - 1, point, grid, scorer, limit);
            lemma_step_grows(before, arcs[later - 1], point, grid, scorer, limit + later - 1);
            assert(grown(full, full));
        } else {
            lemma_use_counts_grow(buckets, arcs, earlier, later - 1, point, grid, scorer, limit);
            lemma_step_grows(before, arcs[later - 1], point, grid, scorer, limit + later - 1);
            lemma_grown_transitive(
                pass(buckets, arcs.take(earlier), point, grid, scorer)->Ok_0.buckets,
                before,
                full,
            );
        }
    }
}

/// Every piece goes to exactly one of the four quadrants.
pub proof fn lemma_tags_cover(pieces: Seq<(Segment, Arc)>)
    ensures
        tagged(pieces, Segment::Northeast).len() + tagged(pieces, Segment::Southeast).len()
            + tagged(pieces, Segment::Southwest).len() + tagged(pieces, Segment::Northwest).len()
            == pieces.len(),
    decreases pieces.len(),
{
    if pieces.len() == 0 {
        reveal(Seq::filter);
    } else {
        let front = pieces.drop_last();
        lemma_tags_cover(front);
        lemma_tagged_push(front, pieces.last(), Segment::Northeast);
        lemma_tagged_push(front, pieces.last(), Segment::Southeast);
        lemma_tagged_push(front, pieces.last(), Segment::Southwest);
        lemma_tagged_push(front, pieces.last(), Segment::Northwest);
        assert(pieces =~= front.push(pieces.last()));
    }
}

/// The number of pieces that a crossing of the given kind leaves of an arc.
pub open spec fn pieces_of(kind: Crossing) -> nat {
    match kind {
        Crossing::Within => 1,
        Crossing::Vertical => 2,
        Crossing::Horizontal => 2,
        Crossing::Diagonal => 3,
    }
}

/// An arc that stays whole leaves one piece, an arc that is cut once two,
/// and an arc that is cut twice three.
pub proof fn lemma_step_pieces(
    buckets: Buckets,
    arc: Arc,
    point: Coord,
    grid: Grid,
    scorer: spec_fn(Pip, usize, WireId, WireId) -> u64,
)
    ensures
        step(buckets, arc, point, grid, scorer) matches Ok(next) ==> next.pieces.len()
            == pieces_of(crossing_of(arc, point)),
{
}

/// Coverage: the four quadrants together hold one piece for every arc, one
/// more for every arc cut across one line, and two more for every arc cut
/// across both.
pub proof fn lemma_coverage(
    buckets: Buckets,
    arcs: Seq<Arc>,
    point: Coord,
    grid: Grid,
    scorer: spec_fn(Pip, usize, WireId, WireId) -> u64,
)
    ensures
        pass(buckets, arcs, point, grid, scorer) matches Ok(sorting) ==> {
            &&& sorting.pieces.len() == arcs.len() + count_crossing(
                arcs,
                point,
                Crossing::Vertical,
            ) + count_crossing(arcs, point, Crossing::Horizontal) + 2 * count_crossing(
                arcs,
                point,
                Crossing::Diagonal,
            )
            &&& tagged(sorting.pieces, Segment::Northeast).len() + tagged(
                sorting.pieces,
                Segment::Southeast,
            ).len() + tagged(sorting.pieces, Segment::Southwest).len() + tagged(
                sorting.pieces,
                Segment::Northwest,
            ).len() == sorting.pieces.len()
        },
    decreases arcs.len(),
{
    if arcs.len() == 0 {
        reveal(Seq::filter);
    } else {
        let front = arcs.drop_last();
        lemma_coverage(buckets, front, point, grid, scorer);
        assert(arcs =~= front.push(arcs.last()));
        lemma_count_crossing_push(front, arcs.last(), point, Crossing::Vertical);
        lemma_count_crossing_push(front, arcs.last(), point, Crossing::Horizontal);
        lemma_count_crossing_push(front, arcs.last(), point, Crossing::Diagonal);
        if let Ok(sorting) = pass(buckets, front, point, grid, scorer) {
            lemma_step_pieces(sorting.buckets, arcs.last(), point, grid, scorer);
        }
    }
    if let Ok(sorting) = pass(buckets, arcs, point, grid, scorer) {
        lemma_tags_cover(sorting.pieces);
    }
}

/// Containment of whole arcs: where no arc crosses a cut line, the pass
/// cannot fail, it sends out the arcs as they are and in their order, and
/// both ends of each lie in the quadrant it is sent to.
pub proof fn lemma_whole_arcs_contained(
    buckets: Buckets,
    arcs: Seq<Arc>,
    point: Coord,
    grid: Grid,
    scorer: spec_fn(Pip, usize, WireId, WireId) -> u64,
)
    requires
        forall|i: int| 0 <= i < arcs.len() ==> crossing_of(#[trigger] arcs[i], point) == Crossing::Within,
    ensures
        pass(buckets, arcs, point, grid, scorer) is Ok,
        pass(buckets, arcs, point, grid, scorer)->Ok_0.buckets == buckets,
        pass(buckets, arcs, point, grid, scorer)->Ok_0.pieces.len() == arcs.len(),
        forall|i: int|
            0 <= i < arcs.len() ==> {
                let piece = #[trigger] pass(buckets, arcs, point, grid, scorer)->Ok_0.pieces[i];
                piece.1 == arcs[i] && piece.1.within(piece.0, point)
            },
    decreases arcs.len(),
{
    if arcs.len() > 0 {
        let front = arcs.drop_last();
        assert forall|i: int| 0 <= i < front.len() implies crossing_of(#[trigger] front[i], point)
            == Crossing::Within by {
            assert(front[i] == arcs[i]);
        }
        lemma_whole_arcs_contained(buckets, front, point, grid, scorer);
        assert(crossing_of(arcs[arcs.len() - 1], point) == Crossing::Within);
        let pieces = pass(buckets, arcs, point, grid, scorer)->Ok_0.pieces;
        let sent = pass(buckets, front, point, grid, scorer)->Ok_0.pieces;
        assert forall|i: int| 0 <= i < arcs.len() implies {
            let piece = #[trigger] pieces[i];
            piece.1 == arcs[i] && piece.1.within(piece.0, point)
        } by {
            if i < front.len() {
                assert(pieces[i] == sent[i]);
                assert(front[i] == arcs[i]);
            }
        }
    }
}

/// Containment of the outer ends: of the pieces of one arc, the first starts
/// at the arc's source and goes to the quadrant of the source, and the last
/// ends at the arc's sink and goes to the quadrant of the sink.
pub proof fn lemma_outer_ends_contained(
    buckets: Buckets,
    arc: Arc,
    point: Coord,
    grid: Grid,
    scorer: spec_fn(Pip, usize, WireId, WireId) -> u64,
)
    ensures
        step(buckets, arc, point, grid, scorer) matches Ok(next) ==> {
            &&& next.pieces.len() > 0
            &&& next.pieces.first().1.source_loc == arc.source_loc
            &&& next.pieces.first().1.source_wire == arc.source_wire
            &&& next.pieces.first().0 == arc.source_loc.coord().quadrant(point)
            &&& next.pieces.last().1.sink_loc == arc.sink_loc
            &&& next.pieces.last().1.sink_wire == arc.sink_wire
            &&& next.pieces.last().0 == arc.sink_loc.coord().quadrant(point)
        },
{
}

/// The pips at which a pass cuts `arc`, in the order in which the arc runs
/// through them.
pub open spec fn junctions(
    buckets: Buckets,
    arc: Arc,
    point: Coord,
    grid: Grid,
    scorer: spec_fn(Pip, usize, WireId, WireId) -> u64,
) -> Seq<Pip> {
    match plan_of(arc, point, grid) {
        Plan::Keep { .. } => Seq::empty(),
        Plan::Cut { heading, cell, .. } => seq![
            crate::pass::chosen_pip(buckets, heading, cell, arc, scorer),
        ],
        Plan::CutTwice { east_west, on_x, north_south, on_y } => {
            let first = crate::pass::chosen_pip(buckets, east_west, on_x, arc, scorer);
            let second = crate::pass::chosen_pip(
                after_choice(buckets, east_west, on_x, arc.source_wire, arc.sink_wire, scorer),
                north_south,
                on_y,
                arc,
                scorer,
            );
            if first.loc.coord().east_of(point) == arc.source_loc.coord().east_of(point) {
                seq![first, second]
            } else {
                seq![second, first]
            }
        },
    }
}

/// Two pieces meet at `pip`: the first ends at the pip's source wire, the
/// second starts at its destination wire, and both meet where the pip is.
pub open spec fn joined_at(before: Arc, after: Arc, pip: Pip) -> bool {
    &&& before.sink_wire == pip.src_wire
    &&& after.source_wire == pip.dst_wire
    &&& before.sink_loc == pip.loc
    &&& after.source_loc == pip.loc
}

/// Split continuity and clamping: the pieces of one arc follow one another
/// through the pips at which it was cut, and each of these pips lies in a
/// cell of `[1, dim_x - 1] x [1, dim_y - 1]`.
pub proof fn lemma_pieces_joined(
    buckets: Buckets,
    arc: Arc,
    point: Coord,
    grid: Grid,
    scorer: spec_fn(Pip, usize, WireId, WireId) -> u64,
)
    requires
        grid.wf(),
        located(buckets),
    ensures
        plan_inside(plan_of(arc, point, grid), grid),
        step(buckets, arc, point, grid, scorer) matches Ok(next) ==> {
            let cuts = junctions(buckets, arc, point, grid, scorer);
            &&& next.pieces.len() == cuts.len() + 1
            &&& forall|j: int|
                0 <= j < cuts.len() ==> joined_at(
                    next.pieces[j].1,
                    next.pieces[j + 1].1,
                    #[trigger] cuts[j],
                ) && grid.interior(cuts[j].loc.coord())
        },
{
    let source = arc.source_wire;
    let sink = arc.sink_wire;
    match plan_of(arc, point, grid) {
        Plan::Keep { segment } => {},
        Plan::Cut { heading, cell, first, second } => {
            let bucket = buckets[(heading, cell)];
            if bucket.len() > 0 {
                lemma_best_index(bucket_scores(bucket, source, sink, scorer));
                let chosen = chosen_index(bucket, source, sink, scorer);
                assert(bucket[chosen].pip.loc.coord() == cell);
            }
        },
        Plan::CutTwice { east_west, on_x, north_south, on_y } => {
            let bucket = buckets[(east_west, on_x)];
            if bucket.len() > 0 {
                lemma_best_index(bucket_scores(bucket, source, sink, scorer));
                let chosen = chosen_index(bucket, source, sink, scorer);
                assert(bucket[chosen].pip.loc.coord() == on_x);
                let after = after_choice(buckets, east_west, on_x, source, sink, scorer);
                let other = after[(north_south, on_y)];
                assert(other == buckets[(north_south, on_y)]);
                if other.len() > 0 {
                    lemma_best_index(bucket_scores(other, source, sink, scorer));
                    let then = chosen_index(other, source, sink, scorer);
                    assert(other[then].pip.loc.coord() == on_y);
                }
            }
        },
    }
}

/// Termination: where the larger extent of the bounds is at most `2^k`, a
/// search makes no more than `k + 1` passes.
pub proof fn lemma_search_bound(
    task: Task,
    x_start: i32,
    x_finish: i32,
    y_start: i32,
    y_finish: i32,
    k: nat,
)
    requires
        x_start <= x_finish,
        y_start <= y_finish,
        extent(x_start as int, x_finish as int, y_start as int, y_finish as int) <= pow2(k),
    ensures
        search(
            task,
            (x_start + (x_finish - x_start) / 2) as i32,
            (y_start + (y_finish - y_start) / 2) as i32,
            (x_finish - x_start) / 4,
            (y_finish - y_start) / 4,
        ) matches Ok(found) ==> 1 <= found.passes <= k + 1,
{
    let first_step = (x_finish - x_start) / 4;
    lemma_pow2_pos(k);
    lemma_halvings(first_step as nat, k);
    lemma_search_passes(
        task,
        (x_start + (x_finish - x_start) / 2) as i32,
        (y_start + (y_finish - y_start) / 2) as i32,
        first_step,
        (y_finish - y_start) / 4,
    );
}

/// Both states have buckets of the same lengths.
pub open spec fn same_shape(a: Buckets, b: Buckets) -> bool {
    forall|key: (Heading, Coord)| (#[trigger] a[key]).len() == b[key].len()
}

/// Both lists send as many pieces, in the same order, to the same quadrants.
pub open spec fn same_tags(a: Seq<(Segment, Arc)>, b: Seq<(Segment, Arc)>) -> bool {
    &&& a.len() == b.len()
    &&& forall|j: int| 0 <= j < a.len() ==> (#[trigger] a[j]).0 == b[j].0
}

/// Lists with the same tags send equally many pieces to every quadrant.
pub proof fn lemma_same_tags_same_loads(
    a: Seq<(Segment, Arc)>,
    b: Seq<(Segment, Arc)>,
    segment: Segment,
)
    requires
        same_tags(a, b),
    ensures
        tagged(a, segment).len() == tagged(b, segment).len(),
    decreases a.len(),
{
    if a.len() == 0 {
        assert(a =~= b);
    } else {
        assert(a.last().0 == b.last().0);
        assert forall|j: int| 0 <= j < a.drop_last().len() implies (#[trigger] a.drop_last()[j]).0
            == b.drop_last()[j].0 by {
            assert(a[j].0 == b[j].0);
        }
        lemma_same_tags_same_loads(a.drop_last(), b.drop_last(), segment);
        lemma_tagged_push(a.drop_last(), a.last(), segment);
        lemma_tagged_push(b.drop_last(), b.last(), segment);
        assert(a =~= a.drop_last().push(a.last()));
        assert(b =~= b.drop_last().push(b.last()));
    }
}

/// What one arc does depends on the choice of pips only in the pips
/// themselves: from states of the same shape and under any two scoring
/// functions it finds the same bucket empty, or it leaves pieces with the
/// same tags and states of the same shape.
pub proof fn lemma_step_alike(
    one: Buckets,
    other: Buckets,
    arc: Arc,
    point: Coord,
    grid: Grid,
    scorer: spec_fn(Pip, usize, WireId, WireId) -> u64,
    rival: spec_fn(Pip, usize, WireId, WireId) -> u64,
    limit: int,
)
    requires
        same_shape(one, other),
        located(one),
        located(other),
        uses_at_most(one, limit),
        uses_at_most(other, limit),
        limit < usize::MAX,
    ensures
        match step(one, arc, point, grid, scorer) {
            Err(missing) => step(other, arc, point, grid, rival) == Err::<
                Sorting,
                (Heading, Coord),
            >(missing),
            Ok(next) => {
                &&& step(other, arc, point, grid, rival) is Ok
                &&& same_tags(next.pieces, step(other, arc, point, grid, rival)->Ok_0.pieces)
                &&& same_shape(next.buckets, step(other, arc, point, grid, rival)->Ok_0.buckets)
            },
        },
{
    let source = arc.source_wire;
    let sink = arc.sink_wire;
    match plan_of(arc, point, grid) {
        Plan::Keep { segment } => {},
        Plan::Cut { heading, cell, first, second } => {
            assert(one[(heading, cell)].len() == other[(heading, cell)].len());
            if one[(heading, cell)].len() > 0 {
                lemma_choice_uses(one, heading, cell, source, sink, scorer, limit);
                lemma_choice_uses(other, heading, cell, source, sink, rival, limit);
                let a = after_choice(one, heading, cell, source, sink, scorer);
                let b = after_choice(other, heading, cell, source, sink, rival);
                assert forall|key: (Heading, Coord)| (#[trigger] a[key]).len() == b[key].len() by {
                    assert(one[key].len() == other[key].len());
                }
            }
        },
        Plan::CutTwice { east_west, on_x, north_south, on_y } => {
            assert(one[(east_west, on_x)].len() == other[(east_west, on_x)].len());
            assert(one[(north_south, on_y)].len() == other[(north_south, on_y)].len());
            if one[(east_west, on_x)].len() > 0 {
                lemma_choice_uses(one, east_west, on_x, source, sink, scorer, limit);
                lemma_choice_uses(other, east_west, on_x, source, sink, rival, limit);
                let a = after_choice(one, east_west, on_x, source, sink, scorer);
                let b = after_choice(other, east_west, on_x, source, sink, rival);
                assert(a[(north_south, on_y)] == one[(north_south, on_y)]);
                assert(b[(north_south, on_y)] == other[(north_south, on_y)]);
                let bucket_one = one[(east_west, on_x)];
                let bucket_other = other[(east_west, on_x)];
                lemma_best_index(bucket_scores(bucket_one, source, sink, scorer));
                lemma_best_index(bucket_scores(bucket_other, source, sink, rival));
                assert(bucket_one[chosen_index(bucket_one, source, sink, scorer)].pip.loc.coord()
                    == on_x);
                assert(bucket_other[chosen_index(bucket_other, source, sink, rival)].pip.loc.coord()
                    == on_x);
                if a[(north_south, on_y)].len() > 0 {
                    let a2 = after_choice(a, north_south, on_y, source, sink, scorer);
                    let b2 = after_choice(b, north_south, on_y, source, sink, rival);
                    lemma_best_index(bucket_scores(a[(north_south, on_y)], source, sink, scorer));
                    lemma_best_index(bucket_scores(b[(north_south, on_y)], source, sink, rival));
                    assert forall|key: (Heading, Coord)| (#[trigger] a2[key]).len()
                        == b2[key].len() by {
                        assert(one[key].len() == other[key].len());
                        if key != (north_south, on_y) {
                            assert(a2[key] == a[key]);
                            assert(b2[key] == b[key]);
                            if key != (east_west, on_x) {
                                assert(a[key] == one[key]);
                                assert(b[key] == other[key]);
                            }
                        }
                    }
                }
            }
        },
    }
}

/// Two passes over the same arcs, from states of the same shape and under any
/// two scoring functions, end alike: both at the same empty bucket, or both
/// with pieces of the same tags.
pub proof fn lemma_pass_alike(
    one: Buckets,
    other: Buckets,
    arcs: Seq<Arc>,
    point: Coord,
    grid: Grid,
    scorer: spec_fn(Pip, usize, WireId, WireId) -> u64,
    rival: spec_fn(Pip, usize, WireId, WireId) -> u64,
    limit: int,
)
    requires
        same_shape(one, other),
        located(one),
        located(other),
        uses_at_most(one, limit),
        uses_at_most(other, limit),
        limit + arcs.len() <= usize::MAX,
    ensures
        match pass(one, arcs, point, grid, scorer) {
            Err(missing) => pass(other, arcs, point, grid, rival) == Err::<Sorting, MissingBucket>(
                missing,
            ),
            Ok(sorting) => {
                &&& pass(other, arcs, point, grid, rival) is Ok
                &&& same_tags(sorting.pieces, pass(other, arcs, point, grid, rival)->Ok_0.pieces)
                &&& same_shape(
                    sorting.buckets,
                    pass(other, arcs, point, grid, rival)->Ok_0.buckets,
                )
            },
        },
    decreases arcs.len(),
{
    if arcs.len() > 0 {
        let front = arcs.drop_last();
        lemma_pass_alike(one, other, front, point, grid, scorer, rival, limit);
        if let Ok(sorting) = pass(one, front, point, grid, scorer) {
            let twin = pass(other, front, point, grid, rival)->Ok_0;
            assert(front =~= arcs.take(front.len() as int));
            lemma_use_counts_grow(
                one,
                arcs,
                front.len() as int,
                front.len() as int,
                point,
                grid,
                scorer,
                limit,
            );
            lemma_use_counts_grow(
                other,
                arcs,
                front.len() as int,
                front.len() as int,
                point,
                grid,
                rival,
                limit,
            );
            lemma_step_alike(
                sorting.buckets,
                twin.buckets,
                arcs.last(),
                point,
                grid,
                scorer,
                rival,
                limit + front.len(),
            );
            if let Ok(next) = step(sorting.buckets, arcs.last(), point, grid, scorer) {
                let twin_next = step(twin.buckets, arcs.last(), point, grid, rival)->Ok_0;
                let a = sorting.pieces + next.pieces;
                let b = twin.pieces + twin_next.pieces;
                assert forall|j: int| 0 <= j < a.len() implies (#[trigger] a[j]).0 == b[j].0 by {
                    if j < sorting.pieces.len() {
                        assert(sorting.pieces[j].0 == twin.pieces[j].0);
                    } else {
                        assert(next.pieces[j - sorting.pieces.len()].0 == twin_next.pieces[j
                            - sorting.pieces.len()].0);
                    }
                }
            }
        }
    }
}

/// Idempotence: two passes around one point over the same arcs and pips end
/// alike, whichever pips the arcs choose. Both fail at the same arc for want
/// of the same bucket, or both succeed and send equally many pieces to every
/// quadrant.
pub proof fn lemma_sizes_repeat(
    pips: Seq<Pip>,
    bounds: Bounds,
    arcs: Seq<Arc>,
    point: Coord,
    grid: Grid,
    scorer: spec_fn(Pip, usize, WireId, WireId) -> u64,
    rival: spec_fn(Pip, usize, WireId, WireId) -> u64,
)
    requires
        arcs.len() <= usize::MAX,
    ensures
        match pass(fresh_buckets(pips, point, bounds), arcs, point, grid, scorer) {
            Err(missing) => pass(fresh_buckets(pips, point, bounds), arcs, point, grid, rival)
                == Err::<Sorting, MissingBucket>(missing),
            Ok(sorting) => {
                &&& pass(fresh_buckets(pips, point, bounds), arcs, point, grid, rival) is Ok
                &&& forall|segment: Segment|
                    (#[trigger] tagged(sorting.pieces, segment)).len() == tagged(
                        pass(
                            fresh_buckets(pips, point, bounds),
                            arcs,
                            point,
                            grid,
                            rival,
                        )->Ok_0.pieces,
                        segment,
                    ).len()
            },
        },
{
    let fresh = fresh_buckets(pips, point, bounds);
    lemma_fresh_buckets(pips, point, bounds);
    lemma_pass_alike(fresh, fresh, arcs, point, grid, scorer, rival, 0);
    if let Ok(sorting) = pass(fresh, arcs, point, grid, scorer) {
        let twin = pass(fresh, arcs, point, grid, rival)->Ok_0;
        assert forall|segment: Segment|
            (#[trigger] tagged(sorting.pieces, segment)).len() == tagged(twin.pieces, segment).len() by {
            lemma_same_tags_same_loads(sorting.pieces, twin.pieces, segment);
        }
    }
}

/// Containment ends where an arc is cut: its first two pieces meet at a pip
/// and go to different quadrants, so that one of them has an end outside
/// the quadrant it goes to.
pub proof fn lemma_cut_arcs_leave_their_quadrant(
    buckets: Buckets,
    arc: Arc,
    point: Coord,
    grid: Grid,
    scorer: spec_fn(Pip, usize, WireId, WireId) -> u64,
)
    requires
        crossing_of(arc, point) != Crossing::Within,
    ensures
        step(buckets, arc, point, grid, scorer) matches Ok(next) ==> {
            &&& next.pieces.len() >= 2
            &&& next.pieces[0].0 != next.pieces[1].0
            &&& next.pieces[0].1.sink_loc == next.pieces[1].1.source_loc
            &&& !(next.pieces[0].1.within(next.pieces[0].0, point) && next.pieces[1].1.within(
                next.pieces[1].0,
                point,
            ))
        },
{
}

} // verus!
