//! One partition pass: every arc is sorted into the quadrants around a fixed
//! point, and an arc that crosses a cut line is split at a pip chosen on
//! that line.

use vstd::prelude::*;
use crate::arc::{Arc, Bounds, Heading, Pip, WireId};
use crate::crossing::{crossing_of, diagonal_tags, middle_tag, plan, plan_of, Crossing, Grid, Plan};
use crate::geometry::{Coord, Segment};
use crate::pip_index::{
    after_choice, chosen_index, fresh_buckets, is_scorer, scorer_of, Buckets, PipIndex,
};

verus! {

/// A pass cannot go on: the arc at position `arc` has to cross in `cell`, and
/// no pip there heads in the direction it needs.
#[derive(Clone, Copy, Debug, PartialEq, Eq, Hash, Structural)]
pub struct MissingBucket {
    pub arc: usize,
    pub heading: Heading,
    pub cell: Coord,
}

/// The state of a pass: the buckets with their use counts, and the pieces
/// sent out so far, each with the quadrant it goes to.
pub struct Sorting {
    pub buckets: Buckets,
    pub pieces: Seq<(Segment, Arc)>,
}

/// The four quadrants of a partition, with the number of arcs that were cut
/// across the line `x = X` only (`vertical`), across the line `y = Y` only
/// (`horizontal`), and across both (`diagonal`).
#[derive(Debug)]
pub struct Quadrants {
    pub ne: Vec<Arc>,
    pub se: Vec<Arc>,
    pub sw: Vec<Arc>,
    pub nw: Vec<Arc>,
    pub vertical: usize,
    pub horizontal: usize,
    pub diagonal: usize,
}

/// The pip that `arc` chooses from the bucket of `heading` at `cell`.
pub open spec fn chosen_pip(
    buckets: Buckets,
    heading: Heading,
    cell: Coord,
    arc: Arc,
    scorer: spec_fn(Pip, usize, WireId, WireId) -> u64,
) -> Pip {
    let bucket = buckets[(heading, cell)];
    bucket[chosen_index(bucket, arc.source_wire, arc.sink_wire, scorer)].pip
}

/// The two pieces of an arc cut at `pip`.
pub open spec fn cut_once(arc: Arc, pip: Pip, first: Segment, second: Segment) -> Seq<
    (Segment, Arc),
> {
    seq![(first, arc.head(pip)), (second, arc.tail(pip))]
}

/// The three pieces of an arc that crosses both cut lines. `on_x` is the pip
/// chosen where the arc meets the line `x = X`, `on_y` the one chosen where it
/// meets `y = Y`. The arc is cut at `on_x` first if that pip lies on the
/// source's side east to west, and at `on_y` first otherwise.
pub open spec fn cut_twice(arc: Arc, point: Coord, on_x: Pip, on_y: Pip) -> Seq<(Segment, Arc)> {
    let north = arc.source_loc.coord().north_of(point);
    let east = arc.source_loc.coord().east_of(point);
    let pip_east = on_x.loc.coord().east_of(point);
    let first = if pip_east == east {
        on_x
    } else {
        on_y
    };
    let second = if pip_east == east {
        on_y
    } else {
        on_x
    };
    seq![
        (Segment::of_sides(north, east), arc.head(first)),
        (middle_tag(north, east, pip_east), arc.tail(first).head(second)),
        (Segment::of_sides(!north, !east), arc.tail(first).tail(second)),
    ]
}

/// What a pass around `point` does with one arc: the buckets afterwards and
/// the pieces of the arc, or the bucket that it found empty.
pub open spec fn step(
    buckets: Buckets,
    arc: Arc,
    point: Coord,
    grid: Grid,
    scorer: spec_fn(Pip, usize, WireId, WireId) -> u64,
) -> Result<Sorting, (Heading, Coord)> {
    match plan_of(arc, point, grid) {
        Plan::Keep { segment } => Ok(Sorting { buckets, pieces: seq![(segment, arc)] }),
        Plan::Cut { heading, cell, first, second } => {
            if buckets[(heading, cell)].len() == 0 {
                Err((heading, cell))
            } else {
                Ok(
                    Sorting {
                        buckets: after_choice(
                            buckets,
                            heading,
                            cell,
                            arc.source_wire,
                            arc.sink_wire,
                            scorer,
                        ),
                        pieces: cut_once(
                            arc,
                            chosen_pip(buckets, heading, cell, arc, scorer),
                            first,
                            second,
                        ),
                    },
                )
            }
        },
        Plan::CutTwice { east_west, on_x, north_south, on_y } => {
            if buckets[(east_west, on_x)].len() == 0 {
                Err((east_west, on_x))
            } else {
                let after = after_choice(
                    buckets,
                    east_west,
                    on_x,
                    arc.source_wire,
                    arc.sink_wire,
                    scorer,
                );
                if after[(north_south, on_y)].len() == 0 {
                    Err((north_south, on_y))
                } else {
                    Ok(
                        Sorting {
                            buckets: after_choice(
                                after,
                                north_south,
                                on_y,
                                arc.source_wire,
                                arc.sink_wire,
                                scorer,
                            ),
                            pieces: cut_twice(
                                arc,
                                point,
                                chosen_pip(buckets, east_west, on_x, arc, scorer),
                                chosen_pip(after, north_south, on_y, arc, scorer),
                            ),
                        },
                    )
                }
            }
        },
    }
}

/// A pass around `point` over `arcs`, taken in order and starting from
/// `buckets`: the buckets and all pieces at its end, or the first bucket that
/// an arc found empty.
pub open spec fn pass(
    buckets: Buckets,
    arcs: Seq<Arc>,
    point: Coord,
    grid: Grid,
    scorer: spec_fn(Pip, usize, WireId, WireId) -> u64,
) -> Result<Sorting, MissingBucket>
    decreases arcs.len(),
{
    if arcs.len() == 0 {
        Ok(Sorting { buckets, pieces: Seq::empty() })
    } else {
        match pass(buckets, arcs.drop_last(), point, grid, scorer) {
            Err(missing) => Err(missing),
            Ok(sorting) => match step(sorting.buckets, arcs.last(), point, grid, scorer) {
                Err((heading, cell)) => Err(
                    MissingBucket { arc: (arcs.len() - 1) as usize, heading, cell },
                ),
                Ok(next) => Ok(
                    Sorting { buckets: next.buckets, pieces: sorting.pieces + next.pieces },
                ),
            },
        }
    }
}

/// Whether a piece goes to `segment`, as a predicate on pieces.
pub open spec fn tagged_with(segment: Segment) -> spec_fn((Segment, Arc)) -> bool {
    |piece: (Segment, Arc)| piece.0 == segment
}

/// A piece without its tag.
pub open spec fn untagged() -> spec_fn((Segment, Arc)) -> Arc {
    |piece: (Segment, Arc)| piece.1
}

/// The pieces that go to `segment`, in the order in which they were sent out.
pub open spec fn tagged(pieces: Seq<(Segment, Arc)>, segment: Segment) -> Seq<Arc> {
    pieces.filter(tagged_with(segment)).map_values(untagged())
}

/// Whether an arc meets the cut lines through `point` in the way `kind`.
pub open spec fn crossing_as(point: Coord, kind: Crossing) -> spec_fn(Arc) -> bool {
    |arc: Arc| crossing_of(arc, point) == kind
}

/// The number of arcs that meet the cut lines through `point` in the way
/// `kind`.
pub open spec fn count_crossing(arcs: Seq<Arc>, point: Coord, kind: Crossing) -> nat {
    arcs.filter(crossing_as(point, kind)).len()
}

impl Quadrants {
    /// The four lists hold exactly `pieces`, each piece in the list of its
    /// tag and in the order of `pieces`.
    pub open spec fn holds(self, pieces: Seq<(Segment, Arc)>) -> bool {
        &&& self.ne@ == tagged(pieces, Segment::Northeast)
        &&& self.se@ == tagged(pieces, Segment::Southeast)
        &&& self.sw@ == tagged(pieces, Segment::Southwest)
        &&& self.nw@ == tagged(pieces, Segment::Northwest)
    }

    /// The counters tell how the arcs of `arcs` met the cut lines through
    /// `point`.
    pub open spec fn counts(self, arcs: Seq<Arc>, point: Coord) -> bool {
        &&& self.vertical == count_crossing(arcs, point, Crossing::Vertical)
        &&& self.horizontal == count_crossing(arcs, point, Crossing::Horizontal)
        &&& self.diagonal == count_crossing(arcs, point, Crossing::Diagonal)
    }

    /// The number of pieces in all four quadrants.
    pub open spec fn total(self) -> int {
        self.ne.len() + self.se.len() + self.sw.len() + self.nw.len()
    }

    fn empty() -> (quadrants: Quadrants)
        ensures
            quadrants.holds(Seq::empty()),
            quadrants.total() == 0,
            quadrants.vertical == 0,
            quadrants.horizontal == 0,
            quadrants.diagonal == 0,
    {
        let quadrants = Quadrants {
            ne: Vec::new(),
            se: Vec::new(),
            sw: Vec::new(),
            nw: Vec::new(),
            vertical: 0,
            horizontal: 0,
            diagonal: 0,
        };
        proof {
            reveal(Seq::filter);
            assert(quadrants.ne@ =~= tagged(Seq::empty(), Segment::Northeast));
            assert(quadrants.se@ =~= tagged(Seq::empty(), Segment::Southeast));
            assert(quadrants.sw@ =~= tagged(Seq::empty(), Segment::Southwest));
            assert(quadrants.nw@ =~= tagged(Seq::empty(), Segment::Northwest));
        }
        quadrants
    }

    /// Files `arc` under `segment`.
    fn file(&mut self, segment: Segment, arc: Arc)
        ensures
            forall|pieces: Seq<(Segment, Arc)>| #[trigger]
                old(self).holds(pieces) ==> final(self).holds(pieces.push((segment, arc))),
            final(self).total() == old(self).total() + 1,
            final(self).vertical == old(self).vertical,
            final(self).horizontal == old(self).horizontal,
            final(self).diagonal == old(self).diagonal,
    {
        match segment {
            Segment::Northeast => self.ne.push(arc),
            Segment::Southeast => self.se.push(arc),
            Segment::Southwest => self.sw.push(arc),
            Segment::Northwest => self.nw.push(arc),
        }
        proof {
            assert forall|pieces: Seq<(Segment, Arc)>| #[trigger]
                old(self).holds(pieces) implies self.holds(pieces.push((segment, arc))) by {
                lemma_tagged_push(pieces, (segment, arc), Segment::Northeast);
                lemma_tagged_push(pieces, (segment, arc), Segment::Southeast);
                lemma_tagged_push(pieces, (segment, arc), Segment::Southwest);
                lemma_tagged_push(pieces, (segment, arc), Segment::Northwest);
            }
        }
    }
}

/// One more piece comes last in the list of its tag and leaves the other
/// lists as they were.
pub proof fn lemma_tagged_push(pieces: Seq<(Segment, Arc)>, piece: (Segment, Arc), segment: Segment)
    ensures
        tagged(pieces.push(piece), segment) == (if piece.0 == segment {
            tagged(pieces, segment).push(piece.1)
        } else {
            tagged(pieces, segment)
        }),
{
    let pred = tagged_with(segment);
    pieces.lemma_filter_push(piece, pred);
    if piece.0 == segment {
        assert(pieces.filter(pred).push(piece).map_values(untagged()) =~= pieces.filter(
            pred,
        ).map_values(untagged()).push(piece.1));
    }
}

/// One more arc counts once under the way in which it meets the cut lines.
pub proof fn lemma_count_crossing_push(arcs: Seq<Arc>, arc: Arc, point: Coord, kind: Crossing)
    ensures
        count_crossing(arcs.push(arc), point, kind) == count_crossing(arcs, point, kind) + (
        if crossing_of(arc, point) == kind {
            1nat
        } else {
            0nat
        }),
{
    arcs.lemma_filter_push(arc, crossing_as(point, kind));
}

/// Once an arc has found a bucket empty, the arcs after it change nothing.
pub proof fn lemma_pass_stops(
    buckets: Buckets,
    arcs: Seq<Arc>,
    n: int,
    point: Coord,
    grid: Grid,
    scorer: spec_fn(Pip, usize, WireId, WireId) -> u64,
)
    requires
        0 <= n <= arcs.len(),
        pass(buckets, arcs.take(n), point, grid, scorer) is Err,
    ensures
        pass(buckets, arcs, point, grid, scorer) == pass(buckets, arcs.take(n), point, grid, scorer),
    decreases arcs.len() - n,
{
    if n == arcs.len() {
        assert(arcs.take(n) =~= arcs);
    } else {
        assert(arcs.drop_last().take(n) =~= arcs.take(n));
        lemma_pass_stops(buckets, arcs.drop_last(), n, point, grid, scorer);
    }
}

/// No candidate of `buckets` has been chosen more than `limit` times.
pub open spec fn uses_at_most(buckets: Buckets, limit: int) -> bool {
    forall|key: (Heading, Coord), k: int|
        0 <= k < buckets[key].len() ==> (#[trigger] buckets[key][k]).uses <= limit
}

/// A choice from a bucket raises one use count by one.
pub proof fn lemma_choice_uses(
    buckets: Buckets,
    heading: Heading,
    cell: Coord,
    source: WireId,
    sink: WireId,
    scorer: spec_fn(Pip, usize, WireId, WireId) -> u64,
    limit: int,
)
    requires
        uses_at_most(buckets, limit),
        limit < usize::MAX,
        buckets[(heading, cell)].len() > 0,
    ensures
        uses_at_most(after_choice(buckets, heading, cell, source, sink, scorer), limit + 1),
        forall|key: (Heading, Coord)|
            key != (heading, cell) ==> #[trigger] after_choice(
                buckets,
                heading,
                cell,
                source,
                sink,
                scorer,
            )[key] == buckets[key],
        after_choice(buckets, heading, cell, source, sink, scorer)[(heading, cell)].len()
            == buckets[(heading, cell)].len(),
{
    let bucket = buckets[(heading, cell)];
    let scores = crate::pip_index::bucket_scores(bucket, source, sink, scorer);
    crate::pip_index::lemma_best_index(scores);
    let chosen = chosen_index(bucket, source, sink, scorer);
    let after = after_choice(buckets, heading, cell, source, sink, scorer);
    assert forall|key: (Heading, Coord), k: int| 0 <= k < after[key].len() implies (
    #[trigger] after[key][k]).uses <= limit + 1 by {
        if key == (heading, cell) {
            assert(bucket[k].uses <= limit);
            assert(bucket[chosen].uses <= limit);
        } else {
            assert(buckets[key][k].uses <= limit);
        }
    }
}

/// Sorts one arc: chooses its pips, files its pieces and counts its crossing.
fn sort_arc<F: Fn(Pip, usize, WireId, WireId) -> u64>(
    index: &mut PipIndex,
    quadrants: &mut Quadrants,
    arc: &Arc,
    point: Coord,
    grid: Grid,
    score: &F,
    Ghost(limit): Ghost<int>,
) -> (result: Result<(), (Heading, Coord)>)
    requires
        grid.wf(),
        is_scorer(*score),
        uses_at_most(old(index)@, limit),
        limit < usize::MAX,
        old(quadrants).vertical + old(quadrants).horizontal + old(quadrants).diagonal
            < usize::MAX,
    ensures
        match step(old(index)@, *arc, point, grid, scorer_of(*score)) {
            Err(missing) => result == Err::<(), (Heading, Coord)>(missing),
            Ok(next) => {
                &&& result is Ok
                &&& final(index)@ == next.buckets
                &&& uses_at_most(final(index)@, limit + 1)
                &&& forall|pieces: Seq<(Segment, Arc)>| #[trigger]
                    old(quadrants).holds(pieces) ==> final(quadrants).holds(pieces + next.pieces)
                &&& final(quadrants).total() == old(quadrants).total() + next.pieces.len()
                &&& final(quadrants).total() - old(quadrants).total() == 1 + (final(quadrants).vertical
                    - old(quadrants).vertical) + (final(quadrants).horizontal - old(quadrants).horizontal)
                    + 2 * (final(quadrants).diagonal - old(quadrants).diagonal)
                &&& final(quadrants).vertical == old(quadrants).vertical + (if crossing_of(
                    *arc,
                    point,
                ) == Crossing::Vertical {
                    1int
                } else {
                    0int
                })
                &&& final(quadrants).horizontal == old(quadrants).horizontal + (if crossing_of(
                    *arc,
                    point,
                ) == Crossing::Horizontal {
                    1int
                } else {
                    0int
                })
                &&& final(quadrants).diagonal == old(quadrants).diagonal + (if crossing_of(
                    *arc,
                    point,
                ) == Crossing::Diagonal {
                    1int
                } else {
                    0int
                })
            },
        },
{
    let ghost scorer = scorer_of(*score);
    let ghost before = index@;
    match plan(arc, point, grid) {
        Plan::Keep { segment } => {
            quadrants.file(segment, *arc);
            proof {
                assert forall|pieces: Seq<(Segment, Arc)>| #[trigger]
                    old(quadrants).holds(pieces) implies quadrants.holds(
                    pieces + seq![(segment, *arc)],
                ) by {
                    assert(pieces.push((segment, *arc)) =~= pieces + seq![(segment, *arc)]);
                }
                assert(uses_at_most(index@, limit + 1));
            }
            Ok(())
        },
        Plan::Cut { heading, cell, first, second } => {
            match index.select(heading, cell, arc.source_wire, arc.sink_wire, score) {
                None => Err((heading, cell)),
                Some(pip) => {
                    let (head, tail) = arc.split(&pip);
                    quadrants.file(first, head);
                    let ghost filed = *quadrants;
                    quadrants.file(second, tail);
                    if source_is_north(arc, point) != sink_is_north(arc, point) {
                        quadrants.vertical = quadrants.vertical + 1;
                    } else {
                        quadrants.horizontal = quadrants.horizontal + 1;
                    }
                    proof {
                        lemma_choice_uses(
                            before,
                            heading,
                            cell,
                            arc.source_wire,
                            arc.sink_wire,
                            scorer,
                            limit,
                        );
                        assert forall|pieces: Seq<(Segment, Arc)>| #[trigger]
                            old(quadrants).holds(pieces) implies quadrants.holds(
                            pieces + cut_once(*arc, pip, first, second),
                        ) by {
                            assert(filed.holds(pieces.push((first, head))));
                            assert(pieces.push((first, head)).push((second, tail)) =~= pieces
                                + cut_once(*arc, pip, first, second));
                        }
                    }
                    Ok(())
                },
            }
        },
        Plan::CutTwice { east_west, on_x, north_south, on_y } => {
            let horiz = match index.select(east_west, on_x, arc.source_wire, arc.sink_wire, score) {
                None => {
                    return Err((east_west, on_x));
                },
                Some(pip) => pip,
            };
            let ghost after = index@;
            proof {
                lemma_choice_uses(
                    before,
                    east_west,
                    on_x,
                    arc.source_wire,
                    arc.sink_wire,
                    scorer,
                    limit,
                );
                assert(after[(north_south, on_y)] == before[(north_south, on_y)]);
            }
            let vert = match index.select(north_south, on_y, arc.source_wire, arc.sink_wire, score) {
                None => {
                    return Err((north_south, on_y));
                },
                Some(pip) => pip,
            };
            let north = source_is_north(arc, point);
            let east = source_is_east(arc, point);
            let pip_east = Coord::new(horiz.loc.x, horiz.loc.y).is_east_of(&point);
            let (a, b, c) = if pip_east == east {
                let (a, rest) = arc.split(&horiz);
                let (b, c) = rest.split(&vert);
                (a, b, c)
            } else {
                let (a, rest) = arc.split(&vert);
                let (b, c) = rest.split(&horiz);
                (a, b, c)
            };
            let (first, second, third) = diagonal_tags(north, east, pip_east);
            quadrants.file(first, a);
            let ghost filed_one = *quadrants;
            quadrants.file(second, b);
            let ghost filed_two = *quadrants;
            quadrants.file(third, c);
            quadrants.diagonal = quadrants.diagonal + 1;
            proof {
                lemma_twice_uses(
                    before,
                    east_west,
                    on_x,
                    north_south,
                    on_y,
                    arc.source_wire,
                    arc.sink_wire,
                    scorer,
                    limit,
                );
                assert forall|pieces: Seq<(Segment, Arc)>| #[trigger]
                    old(quadrants).holds(pieces) implies quadrants.holds(
                    pieces + cut_twice(*arc, point, horiz, vert),
                ) by {
                    assert(filed_one.holds(pieces.push((first, a))));
                    assert(filed_two.holds(pieces.push((first, a)).push((second, b))));
                    assert(pieces.push((first, a)).push((second, b)).push((third, c)) =~= pieces
                        + cut_twice(*arc, point, horiz, vert));
                }
            }
            Ok(())
        },
    }
}

/// Two choices of one arc, one from a bucket of pips heading east or west
/// and one from a bucket of pips heading north or south, raise no use count
/// by more than one.
pub proof fn lemma_twice_uses(
    buckets: Buckets,
    east_west: Heading,
    on_x: Coord,
    north_south: Heading,
    on_y: Coord,
    source: WireId,
    sink: WireId,
    scorer: spec_fn(Pip, usize, WireId, WireId) -> u64,
    limit: int,
)
    requires
        uses_at_most(buckets, limit),
        limit < usize::MAX,
        east_west != north_south,
        buckets[(east_west, on_x)].len() > 0,
        buckets[(north_south, on_y)].len() > 0,
    ensures
        uses_at_most(
            after_choice(
                after_choice(buckets, east_west, on_x, source, sink, scorer),
                north_south,
                on_y,
                source,
                sink,
                scorer,
            ),
            limit + 1,
        ),
{
    let after = after_choice(buckets, east_west, on_x, source, sink, scorer);
    let last = after_choice(after, north_south, on_y, source, sink, scorer);
    lemma_choice_uses(buckets, east_west, on_x, source, sink, scorer, limit);
    assert(after[(north_south, on_y)] == buckets[(north_south, on_y)]);
    let bucket = buckets[(north_south, on_y)];
    crate::pip_index::lemma_best_index(
        crate::pip_index::bucket_scores(bucket, source, sink, scorer),
    );
    let chosen = chosen_index(bucket, source, sink, scorer);
    assert forall|key: (Heading, Coord), k: int| 0 <= k < last[key].len() implies (
    #[trigger] last[key][k]).uses <= limit + 1 by {
        if key == (north_south, on_y) {
            assert(bucket[k].uses <= limit);
            assert(bucket[chosen].uses <= limit);
        } else {
            assert(last[key] == after[key]);
            assert(after[key][k].uses <= limit + 1);
        }
    }
}

/// Sorts `arcs` into the four quadrants around `(x, y)`.
///
/// The pips of `pips` that lie on a cut line and inside `bounds` are indexed
/// afresh. The arcs are then taken in order. An arc whose ends lie in one
/// quadrant goes there whole. An arc that crosses one cut line is split at
/// the pip that `score` rates lowest in the bucket of its crossing cell, an
/// arc that crosses both at two such pips. If an arc needs a bucket that is
/// empty, the pass ends with that arc, cell and direction as its error.
pub fn partition<F: Fn(Pip, usize, WireId, WireId) -> u64>(
    grid: Grid,
    score: &F,
    arcs: &[Arc],
    pips: &[Pip],
    x: i32,
    y: i32,
    bounds: Bounds,
) -> (result: Result<Quadrants, MissingBucket>)
    requires
        grid.wf(),
        is_scorer(*score),
    ensures
        match pass(
            fresh_buckets(pips@, Coord { x, y }, bounds),
            arcs@,
            Coord { x, y },
            grid,
            scorer_of(*score),
        ) {
            Err(missing) => result == Err::<Quadrants, MissingBucket>(missing),
            Ok(sorting) => {
                &&& result is Ok
                &&& result->Ok_0.holds(sorting.pieces)
                &&& result->Ok_0.counts(arcs@, Coord { x, y })
                &&& result->Ok_0.total() == arcs.len() + result->Ok_0.vertical
                    + result->Ok_0.horizontal + 2 * result->Ok_0.diagonal
            },
        },
{
    let point = Coord::new(x, y);
    let mut index = PipIndex::build(pips, point, bounds);
    let mut quadrants = Quadrants::empty();
    let ghost start = index@;
    let ghost scorer = scorer_of(*score);
    let ghost mut pieces: Seq<(Segment, Arc)> = Seq::empty();
    let mut i: usize = 0;
    proof {
        assert(arcs@.take(0) =~= Seq::<Arc>::empty());
        reveal(Seq::filter);
        assert forall|key: (Heading, Coord), k: int| 0 <= k < index@[key].len() implies (
        #[trigger] index@[key][k]).uses <= 0 by {
            assert(index@[key] == crate::pip_index::fresh_bucket(
                pips@,
                point,
                bounds,
                key.0,
                key.1,
            ));
        }
    }
    while i < arcs.len()
        invariant
            i <= arcs.len(),
            grid.wf(),
            is_scorer(*score),
            scorer == scorer_of(*score),
            point == (Coord { x, y }),
            start == fresh_buckets(pips@, point, bounds),
            pass(start, arcs@.take(i as int), point, grid, scorer) == Ok::<Sorting, MissingBucket>(
                Sorting { buckets: index@, pieces },
            ),
            quadrants.holds(pieces),
            quadrants.counts(arcs@.take(i as int), point),
            quadrants.total() == i + quadrants.vertical + quadrants.horizontal + 2
                * quadrants.diagonal,
            quadrants.vertical + quadrants.horizontal + quadrants.diagonal <= i,
            uses_at_most(index@, i as int),
        decreases arcs.len() - i,
    {
        let ghost seen = arcs@.take(i as int);
        let ghost next = arcs@.take(i + 1);
        proof {
            assert(next.drop_last() =~= seen);
            assert(next.last() == arcs@[i as int]);
            assert(next =~= seen.push(arcs@[i as int]));
            lemma_count_crossing_push(seen, arcs@[i as int], point, Crossing::Vertical);
            lemma_count_crossing_push(seen, arcs@[i as int], point, Crossing::Horizontal);
            lemma_count_crossing_push(seen, arcs@[i as int], point, Crossing::Diagonal);
        }
        match sort_arc(&mut index, &mut quadrants, &arcs[i], point, grid, score, Ghost(i as int)) {
            Err((heading, cell)) => {
                proof {
                    lemma_pass_stops(start, arcs@, i + 1, point, grid, scorer);
                }
                return Err(MissingBucket { arc: i, heading, cell });
            },
            Ok(()) => {
                proof {
                    pieces = pieces + step(
                        pass(start, seen, point, grid, scorer)->Ok_0.buckets,
                        arcs@[i as int],
                        point,
                        grid,
                        scorer,
                    )->Ok_0.pieces;
                }
            },
        }
        i += 1;
    }
    proof {
        assert(arcs@.take(arcs.len() as int) =~= arcs@);
    }
    Ok(quadrants)
}

fn source_is_north(arc: &Arc, point: Coord) -> (b: bool)
    ensures
        b == arc.source_loc.coord().north_of(point),
{
    arc.source_loc.x < point.x
}

fn sink_is_north(arc: &Arc, point: Coord) -> (b: bool)
    ensures
        b == arc.sink_loc.coord().north_of(point),
{
    arc.sink_loc.x < point.x
}

fn source_is_east(arc: &Arc, point: Coord) -> (b: bool)
    ensures
        b == arc.source_loc.coord().east_of(point),
{
    arc.source_loc.y < point.y
}

} // verus!
