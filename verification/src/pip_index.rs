//! The pips on the two cut lines, grouped by cell and direction, and the
//! choice of the best pip of a group.

use vstd::prelude::*;
use std::collections::HashMap;
use crate::arc::{Bounds, Heading, Pip, WireId};
use crate::geometry::Coord;

verus! {

broadcast use vstd::std_specs::hash::group_hash_axioms;

/// A pip of a bucket and the number of times it has been chosen during the
/// current pass.
#[derive(Clone, Copy, Debug, PartialEq, Eq, Hash, Structural)]
pub struct Candidate {
    pub pip: Pip,
    pub uses: usize,
}

/// Every bucket of an index: the candidates for each direction and cell, in
/// the order in which the pips were listed. A cell without pips of a
/// direction has the empty bucket.
pub type Buckets = Map<(Heading, Coord), Seq<Candidate>>;

/// Whether the index built for `point` inside `bounds` keeps `pip`: it lies on
/// one of the two cut lines, inside the bounds, and has a direction.
pub open spec fn kept(pip: Pip, point: Coord, bounds: Bounds) -> bool {
    &&& pip.loc.x == point.x || pip.loc.y == point.y
    &&& bounds.holds(pip.loc)
    &&& !pip.internal()
}

/// Whether `pip` belongs to the bucket of `heading` at `cell`.
pub open spec fn feeds(pip: Pip, point: Coord, bounds: Bounds, heading: Heading, cell: Coord) -> bool {
    &&& kept(pip, point, bounds)
    &&& pip.heads(heading)
    &&& pip.loc.coord() == cell
}

/// `feeds` as a predicate on pips.
pub open spec fn feeding(point: Coord, bounds: Bounds, heading: Heading, cell: Coord) -> spec_fn(
    Pip,
) -> bool {
    |pip: Pip| feeds(pip, point, bounds, heading, cell)
}

/// The candidate that a pip is before any arc has chosen it.
pub open spec fn unused() -> spec_fn(Pip) -> Candidate {
    |pip: Pip| Candidate { pip, uses: 0 }
}

/// The bucket of `heading` at `cell` in a fresh index over `pips`.
pub open spec fn fresh_bucket(
    pips: Seq<Pip>,
    point: Coord,
    bounds: Bounds,
    heading: Heading,
    cell: Coord,
) -> Seq<Candidate> {
    pips.filter(feeding(point, bounds, heading, cell)).map_values(unused())
}

/// The buckets of a fresh index over `pips`.
pub open spec fn fresh_buckets(pips: Seq<Pip>, point: Coord, bounds: Bounds) -> Buckets {
    Map::new(
        |key: (Heading, Coord)| true,
        |key: (Heading, Coord)| fresh_bucket(pips, point, bounds, key.0, key.1),
    )
}

/// What a scoring function answers, as a mathematical function of the
/// candidate pip, its use count, and the source and sink wires of the arc.
pub open spec fn scorer_of<F: Fn(Pip, usize, WireId, WireId) -> u64>(score: F) -> spec_fn(
    Pip,
    usize,
    WireId,
    WireId,
) -> u64 {
    |pip: Pip, uses: usize, source: WireId, sink: WireId|
        choose|cost: u64| call_ensures(score, (pip, uses, source, sink), cost)
}

/// A scoring function accepts every argument and answers the same question
/// in the same way each time.
pub open spec fn is_scorer<F: Fn(Pip, usize, WireId, WireId) -> u64>(score: F) -> bool {
    &&& forall|pip: Pip, uses: usize, source: WireId, sink: WireId|
        call_requires(score, (pip, uses, source, sink))
    &&& forall|pip: Pip, uses: usize, source: WireId, sink: WireId, a: u64, b: u64|
        call_ensures(score, (pip, uses, source, sink), a) && call_ensures(
            score,
            (pip, uses, source, sink),
            b,
        ) ==> a == b
}

/// The score of each candidate of a bucket for an arc from `source` to `sink`.
pub open spec fn bucket_scores(
    bucket: Seq<Candidate>,
    source: WireId,
    sink: WireId,
    scorer: spec_fn(Pip, usize, WireId, WireId) -> u64,
) -> Seq<u64> {
    Seq::new(bucket.len(), |i: int| scorer(bucket[i].pip, bucket[i].uses, source, sink))
}

/// `k` is the first position that holds the least score.
pub open spec fn is_first_min(scores: Seq<u64>, k: int) -> bool {
    &&& 0 <= k < scores.len()
    &&& forall|j: int| 0 <= j < scores.len() ==> scores[k] <= scores[j]
    &&& forall|j: int| 0 <= j < k ==> scores[k] < scores[j]
}

/// The position chosen among the given scores: the least score wins, and
/// among equal scores the earliest.
pub open spec fn best_index(scores: Seq<u64>) -> int {
    choose|k: int| is_first_min(scores, k)
}

/// The bucket after its candidate at `k` has been chosen once more.
pub open spec fn bumped(bucket: Seq<Candidate>, k: int) -> Seq<Candidate> {
    bucket.update(k, Candidate { pip: bucket[k].pip, uses: (bucket[k].uses + 1) as usize })
}

/// The position that an arc from `source` to `sink` chooses in `bucket`.
pub open spec fn chosen_index(
    bucket: Seq<Candidate>,
    source: WireId,
    sink: WireId,
    scorer: spec_fn(Pip, usize, WireId, WireId) -> u64,
) -> int {
    best_index(bucket_scores(bucket, source, sink, scorer))
}

/// The buckets after an arc from `source` to `sink` has chosen from the
/// bucket of `heading` at `cell`.
pub open spec fn after_choice(
    buckets: Buckets,
    heading: Heading,
    cell: Coord,
    source: WireId,
    sink: WireId,
    scorer: spec_fn(Pip, usize, WireId, WireId) -> u64,
) -> Buckets {
    let bucket = buckets[(heading, cell)];
    buckets.insert((heading, cell), bumped(bucket, chosen_index(bucket, source, sink, scorer)))
}

/// No two positions are both the first minimum.
pub proof fn lemma_first_min_unique(scores: Seq<u64>, a: int, b: int)
    requires
        is_first_min(scores, a),
        is_first_min(scores, b),
    ensures
        a == b,
{
    if a < b {
        assert(scores[b] < scores[a]);
        assert(scores[a] <= scores[b]);
    } else if b < a {
        assert(scores[a] < scores[b]);
        assert(scores[b] <= scores[a]);
    }
}

/// A non-empty sequence of scores has a first minimum, and `best_index` is it.
pub proof fn lemma_best_index(scores: Seq<u64>)
    requires
        scores.len() > 0,
    ensures
        is_first_min(scores, best_index(scores)),
    decreases scores.len(),
{
    if scores.len() == 1 {
        assert(is_first_min(scores, 0));
    } else {
        let front = scores.drop_last();
        lemma_best_index(front);
        let k = best_index(front);
        let last = scores.len() - 1;
        assert forall|j: int| 0 <= j < last implies front[k] <= #[trigger] scores[j] by {
            assert(front[j] == scores[j]);
        }
        assert forall|j: int| 0 <= j < k implies front[k] < #[trigger] scores[j] by {
            assert(front[j] == scores[j]);
        }
        assert(front[k] == scores[k]);
        if scores[last] < front[k] {
            assert(is_first_min(scores, last));
        } else {
            assert(is_first_min(scores, k));
        }
    }
}

/// Finds the first position that holds the least score.
pub fn first_min(scores: &Vec<u64>) -> (k: usize)
    requires
        scores.len() > 0,
    ensures
        is_first_min(scores@, k as int),
        k as int == best_index(scores@),
{
    let mut k: usize = 0;
    let mut i: usize = 1;
    while i < scores.len()
        invariant
            0 <= k < i <= scores.len(),
            forall|j: int| 0 <= j < i ==> scores[k as int] <= scores[j],
            forall|j: int| 0 <= j < k ==> scores[k as int] < scores[j],
        decreases scores.len() - i,
    {
        if scores[i] < scores[k] {
            k = i;
        }
        i += 1;
    }
    proof {
        lemma_best_index(scores@);
        lemma_first_min_unique(scores@, k as int, best_index(scores@));
    }
    k
}

/// The number that stands for a cell in the tables of an index.
pub closed spec fn cell_key(cell: Coord) -> u64 {
    ((cell.x - i32::MIN) * 0x1_0000_0000 + (cell.y - i32::MIN)) as u64
}

proof fn lemma_cell_key_injective(a: Coord, b: Coord)
    ensures
        cell_key(a) == cell_key(b) <==> a == b,
{
    let ka = (a.x - i32::MIN) * 0x1_0000_0000 + (a.y - i32::MIN);
    let kb = (b.x - i32::MIN) * 0x1_0000_0000 + (b.y - i32::MIN);
    assert(0 <= ka <= u64::MAX);
    assert(0 <= kb <= u64::MAX);
    if ka == kb {
        assert(a.x == b.x);
        assert(a.y == b.y);
    }
}

fn key_of(cell: Coord) -> (key: u64)
    ensures
        key == cell_key(cell),
{
    let row: u64 = (cell.x as i64 + 0x8000_0000) as u64;
    let column: u64 = (cell.y as i64 + 0x8000_0000) as u64;
    row * 0x1_0000_0000 + column
}

/// A fresh index over no pips has only empty buckets.
pub proof fn lemma_fresh_bucket_empty(point: Coord, bounds: Bounds, heading: Heading, cell: Coord)
    ensures
        fresh_bucket(Seq::empty(), point, bounds, heading, cell) == Seq::<Candidate>::empty(),
{
    reveal(Seq::filter);
    assert(fresh_bucket(Seq::empty(), point, bounds, heading, cell) =~= Seq::<Candidate>::empty());
}

/// One more pip at the end of the list comes last in the buckets it belongs
/// to and leaves the others as they were.
pub proof fn lemma_fresh_bucket_push(
    pips: Seq<Pip>,
    pip: Pip,
    point: Coord,
    bounds: Bounds,
    heading: Heading,
    cell: Coord,
)
    ensures
        fresh_bucket(pips.push(pip), point, bounds, heading, cell) == (if feeds(
            pip,
            point,
            bounds,
            heading,
            cell,
        ) {
            fresh_bucket(pips, point, bounds, heading, cell).push(Candidate { pip, uses: 0 })
        } else {
            fresh_bucket(pips, point, bounds, heading, cell)
        }),
{
    let pred = feeding(point, bounds, heading, cell);
    pips.lemma_filter_push(pip, pred);
    if feeds(pip, point, bounds, heading, cell) {
        assert(pips.filter(pred).push(pip).map_values(unused()) =~= pips.filter(pred).map_values(
            unused(),
        ).push(Candidate { pip, uses: 0 }));
    }
}

/// Asks `score` for the score of every candidate of a bucket.
fn score_bucket<F: Fn(Pip, usize, WireId, WireId) -> u64>(
    bucket: &Vec<Candidate>,
    source: WireId,
    sink: WireId,
    score: &F,
) -> (scores: Vec<u64>)
    requires
        is_scorer(*score),
    ensures
        scores@ == bucket_scores(bucket@, source, sink, scorer_of(*score)),
{
    let mut scores: Vec<u64> = Vec::new();
    let mut i: usize = 0;
    while i < bucket.len()
        invariant
            is_scorer(*score),
            i <= bucket.len(),
            scores.len() == i,
            forall|j: int|
                0 <= j < i ==> scores[j] == scorer_of(*score)(
                    bucket[j].pip,
                    bucket[j].uses,
                    source,
                    sink,
                ),
        decreases bucket.len() - i,
    {
        let candidate = bucket[i];
        let cost = score(candidate.pip, candidate.uses, source, sink);
        scores.push(cost);
        i += 1;
    }
    proof {
        assert(scores@ =~= bucket_scores(bucket@, source, sink, scorer_of(*score)));
    }
    scores
}

spec fn table_bucket(table: Map<u64, Vec<Candidate>>, cell: Coord) -> Seq<Candidate> {
    if table.contains_key(cell_key(cell)) {
        table[cell_key(cell)]@
    } else {
        Seq::empty()
    }
}

/// For every cell on the two cut lines, the pips that leave it in each of
/// the four directions, each with its use count.
pub struct PipIndex {
    north: HashMap<u64, Vec<Candidate>>,
    east: HashMap<u64, Vec<Candidate>>,
    south: HashMap<u64, Vec<Candidate>>,
    west: HashMap<u64, Vec<Candidate>>,
}

impl View for PipIndex {
    type V = Buckets;

    closed spec fn view(&self) -> Buckets {
        Map::new(
            |key: (Heading, Coord)| true,
            |key: (Heading, Coord)| table_bucket(self.table(key.0), key.1),
        )
    }
}

impl PipIndex {
    spec fn table(self, heading: Heading) -> Map<u64, Vec<Candidate>> {
        match heading {
            Heading::North => self.north@,
            Heading::East => self.east@,
            Heading::South => self.south@,
            Heading::West => self.west@,
        }
    }

    /// An index without pips.
    fn empty() -> (index: PipIndex)
        ensures
            forall|key: (Heading, Coord)| #[trigger] index@[key] == Seq::<Candidate>::empty(),
    {
        PipIndex {
            north: HashMap::new(),
            east: HashMap::new(),
            south: HashMap::new(),
            west: HashMap::new(),
        }
    }

    /// Builds the index of a pass around `point`: every pip of `pips` that
    /// lies on a cut line, inside `bounds`, and has a direction is filed
    /// under its cell, once for each direction it heads in, in the order of
    /// `pips` and with a use count of zero.
    pub fn build(pips: &[Pip], point: Coord, bounds: Bounds) -> (index: PipIndex)
        ensures
            index@ == fresh_buckets(pips@, point, bounds),
    {
        let mut index = PipIndex::empty();
        let mut i: usize = 0;
        proof {
            let none = fresh_buckets(pips@.take(0), point, bounds);
            assert forall|key: (Heading, Coord)| #[trigger] index@[key] == none[key] by {
                lemma_fresh_bucket_empty(point, bounds, key.0, key.1);
                assert(pips@.take(0) =~= Seq::<Pip>::empty());
            }
            assert(index@ =~= fresh_buckets(pips@.take(0), point, bounds));
        }
        while i < pips.len()
            invariant
                i <= pips.len(),
                index@ == fresh_buckets(pips@.take(i as int), point, bounds),
            decreases pips.len() - i,
        {
            let pip = pips[i];
            if (pip.loc.x == point.x || pip.loc.y == point.y) && bounds.contains(&pip.loc)
                && !pip.is_internal() {
                let cell = Coord::new(pip.loc.x, pip.loc.y);
                if pip.is_heading(Heading::North) {
                    index.add(Heading::North, cell, pip);
                }
                if pip.is_heading(Heading::South) {
                    index.add(Heading::South, cell, pip);
                }
                if pip.is_heading(Heading::East) {
                    index.add(Heading::East, cell, pip);
                }
                if pip.is_heading(Heading::West) {
                    index.add(Heading::West, cell, pip);
                }
            }
            proof {
                let seen = pips@.take(i as int);
                let next = pips@.take(i + 1);
                assert(next =~= seen.push(pip));
                let more = fresh_buckets(next, point, bounds);
                assert forall|key: (Heading, Coord)| #[trigger] index@[key] == more[key] by {
                    lemma_fresh_bucket_push(seen, pip, point, bounds, key.0, key.1);
                }
                assert(index@ =~= fresh_buckets(next, point, bounds));
            }
            i += 1;
        }
        proof {
            assert(pips@.take(pips.len() as int) =~= pips@);
        }
        index
    }

    /// Lets an arc from `source` to `sink` choose from the bucket of
    /// `heading` at `cell`. Of a bucket with candidates the one with the least
    /// score is chosen, the earliest among equals, and its use count grows by
    /// one. An empty bucket gives `None` and the index stays as it is.
    pub fn select<F: Fn(Pip, usize, WireId, WireId) -> u64>(
        &mut self,
        heading: Heading,
        cell: Coord,
        source: WireId,
        sink: WireId,
        score: &F,
    ) -> (chosen: Option<Pip>)
        requires
            is_scorer(*score),
            forall|k: int|
                0 <= k < old(self)@[(heading, cell)].len() ==> (#[trigger] old(self)@[(
                    heading,
                    cell,
                )][k]).uses < usize::MAX,
        ensures
            old(self)@[(heading, cell)].len() == 0 ==> chosen is None && final(self)@ == old(
                self,
            )@,
            old(self)@[(heading, cell)].len() > 0 ==> chosen == Some(
                old(self)@[(heading, cell)][chosen_index(
                    old(self)@[(heading, cell)],
                    source,
                    sink,
                    scorer_of(*score),
                )].pip,
            ) && final(self)@ == after_choice(
                old(self)@,
                heading,
                cell,
                source,
                sink,
                scorer_of(*score),
            ),
    {
        let mut bucket = self.take_bucket(heading, cell);
        if bucket.len() == 0 {
            proof {
                assert forall|key: (Heading, Coord)| #[trigger] self@[key] == old(self)@[key] by {
                    lemma_cell_key_injective(key.1, cell);
                }
                assert(self@ =~= old(self)@);
            }
            return None;
        }
        let scores = score_bucket(&bucket, source, sink, score);
        let k = first_min(&scores);
        let candidate = bucket[k];
        bucket.set(k, Candidate { pip: candidate.pip, uses: candidate.uses + 1 });
        self.put_bucket(heading, cell, bucket);
        proof {
            let goal = after_choice(old(self)@, heading, cell, source, sink, scorer_of(*score));
            assert forall|key: (Heading, Coord)| #[trigger] self@[key] == goal[key] by {
                lemma_cell_key_injective(key.1, cell);
            }
            assert(self@ =~= goal);
        }
        Some(candidate.pip)
    }

    fn take_bucket(&mut self, heading: Heading, cell: Coord) -> (bucket: Vec<Candidate>)
        ensures
            bucket@ == old(self)@[(heading, cell)],
            final(self).table(heading) == old(self).table(heading).remove(cell_key(cell)),
            forall|other: Heading| other != heading ==> final(self).table(other) == old(self).table(other),
    {
        let key = key_of(cell);
        let prior = match heading {
            Heading::North => self.north.remove(&key),
            Heading::East => self.east.remove(&key),
            Heading::South => self.south.remove(&key),
            Heading::West => self.west.remove(&key),
        };
        match prior {
            Some(bucket) => bucket,
            None => Vec::new(),
        }
    }

    fn put_bucket(&mut self, heading: Heading, cell: Coord, bucket: Vec<Candidate>)
        ensures
            final(self).table(heading) == old(self).table(heading).insert(cell_key(cell), bucket),
            forall|other: Heading| other != heading ==> final(self).table(other) == old(self).table(other),
    {
        let key = key_of(cell);
        match heading {
            Heading::North => { self.north.insert(key, bucket); },
            Heading::East => { self.east.insert(key, bucket); },
            Heading::South => { self.south.insert(key, bucket); },
            Heading::West => { self.west.insert(key, bucket); },
        }
    }

    /// Appends `pip`, not yet used, to the bucket of `heading` at `cell`.
    fn add(&mut self, heading: Heading, cell: Coord, pip: Pip)
        ensures
            final(self)@ == old(self)@.insert(
                (heading, cell),
                old(self)@[(heading, cell)].push(Candidate { pip, uses: 0 }),
            ),
    {
        let mut bucket = self.take_bucket(heading, cell);
        bucket.push(Candidate { pip, uses: 0 });
        self.put_bucket(heading, cell, bucket);
        proof {
            let goal = old(self)@.insert(
                (heading, cell),
                old(self)@[(heading, cell)].push(Candidate { pip, uses: 0 }),
            );
            assert forall|key: (Heading, Coord)| #[trigger] self@[key] == goal[key] by {
                lemma_cell_key_injective(key.1, cell);
            }
            assert(self@ =~= goal);
        }
    }

    /// The number of candidates in the bucket of `heading` at `cell`.
    pub fn bucket_len(&self, heading: Heading, cell: Coord) -> (n: usize)
        ensures
            n == self@[(heading, cell)].len(),
    {
        let key = key_of(cell);
        let found = match heading {
            Heading::North => self.north.get(&key),
            Heading::East => self.east.get(&key),
            Heading::South => self.south.get(&key),
            Heading::West => self.west.get(&key),
        };
        match found {
            Some(bucket) => bucket.len(),
            None => 0,
        }
    }
}

} // verus!
