use awooter::arc::{Arc, Bounds, Heading, Pip, PipId, WireId};
use awooter::crossing::{classify, diagonal_tags, plan, Crossing, Grid, Plan};
use awooter::geometry::{Coord, Loc, Segment};
use awooter::pass::{partition, MissingBucket, Quadrants};
use awooter::search::find_partition_point;
use std::cell::RefCell;

fn at(x: i32, y: i32) -> Loc {
    Loc { x, y, z: 0 }
}

fn arc(id: u64, from: (i32, i32), to: (i32, i32)) -> Arc {
    Arc::new(WireId(2 * id), at(from.0, from.1), WireId(2 * id + 1), at(to.0, to.1))
}

fn pip(id: u64, x: i32, y: i32, dir_x: i32, dir_y: i32) -> Pip {
    Pip {
        id: PipId(id),
        loc: at(x, y),
        dir_x,
        dir_y,
        src_wire: WireId(1000 + id),
        dst_wire: WireId(2000 + id),
    }
}

/// Four pips in every cell of the grid, one for each direction.
fn pips_everywhere(dim: i32) -> Vec<Pip> {
    pips_everywhere_from(dim, 0)
}

fn pips_everywhere_from(dim: i32, first_id: u64) -> Vec<Pip> {
    let mut pips = Vec::new();
    let mut id = first_id;
    for x in 0..dim {
        for y in 0..dim {
            pips.push(pip(id, x, y, -1, 0));
            pips.push(pip(id + 1, x, y, 1, 0));
            pips.push(pip(id + 2, x, y, 0, -1));
            pips.push(pip(id + 3, x, y, 0, 1));
            id += 4;
        }
    }
    pips
}

fn grid16() -> Grid {
    Grid { dim_x: 16, dim_y: 16 }
}

fn full() -> Bounds {
    Bounds { x_start: 0, x_finish: 16, y_start: 0, y_finish: 16 }
}

fn flat(_pip: Pip, _uses: usize, _source: WireId, _sink: WireId) -> u64 {
    0
}

fn by_id(pip: Pip, _uses: usize, _source: WireId, _sink: WireId) -> u64 {
    pip.id.0
}

fn sizes(q: &Quadrants) -> (usize, usize, usize, usize) {
    (q.ne.len(), q.se.len(), q.sw.len(), q.nw.len())
}

#[test]
fn classify_tells_the_four_ways_apart() {
    let p = Coord::new(8, 8);
    assert_eq!(classify(&arc(0, (3, 3), (7, 7)), p), Crossing::Within);
    assert_eq!(classify(&arc(0, (2, 5), (14, 5)), p), Crossing::Vertical);
    assert_eq!(classify(&arc(0, (5, 2), (5, 14)), p), Crossing::Horizontal);
    assert_eq!(classify(&arc(0, (2, 2), (14, 14)), p), Crossing::Diagonal);
    // a sink on the cut lines lies south and west
    assert_eq!(classify(&arc(0, (3, 3), (8, 8)), p), Crossing::Diagonal);
    assert_eq!(classify(&arc(0, (9, 9), (8, 8)), p), Crossing::Within);
}

#[test]
fn plan_of_an_arc_within_one_quadrant() {
    let plan = plan(&arc(0, (3, 3), (7, 7)), Coord::new(8, 8), grid16());
    assert_eq!(plan, Plan::Keep { segment: Segment::Northeast });
}

#[test]
fn plan_of_a_vertical_crossing() {
    let south = plan(&arc(0, (2, 5), (14, 7)), Coord::new(8, 8), grid16());
    assert_eq!(
        south,
        Plan::Cut {
            heading: Heading::South,
            cell: Coord::new(8, 6),
            first: Segment::Northeast,
            second: Segment::Southeast,
        }
    );
    let north = plan(&arc(0, (14, 12), (2, 9)), Coord::new(8, 8), grid16());
    assert_eq!(
        north,
        Plan::Cut {
            heading: Heading::North,
            cell: Coord::new(8, 10),
            first: Segment::Southwest,
            second: Segment::Northwest,
        }
    );
}

#[test]
fn plan_of_a_horizontal_crossing() {
    let west = plan(&arc(0, (5, 2), (7, 14)), Coord::new(8, 8), grid16());
    assert_eq!(
        west,
        Plan::Cut {
            heading: Heading::West,
            cell: Coord::new(6, 8),
            first: Segment::Northeast,
            second: Segment::Northwest,
        }
    );
    let east = plan(&arc(0, (12, 14), (9, 2)), Coord::new(8, 8), grid16());
    assert_eq!(
        east,
        Plan::Cut {
            heading: Heading::East,
            cell: Coord::new(10, 8),
            first: Segment::Southwest,
            second: Segment::Southeast,
        }
    );
}

#[test]
fn plan_of_a_diagonal_crossing() {
    // the line from (2, 4) to (14, 10) meets x = 8 at y = 7 and y = 8 at x = 10
    let plan = plan(&arc(0, (2, 4), (14, 10)), Coord::new(8, 8), grid16());
    assert_eq!(
        plan,
        Plan::CutTwice {
            east_west: Heading::West,
            on_x: Coord::new(8, 7),
            north_south: Heading::South,
            on_y: Coord::new(10, 8),
        }
    );
}

#[test]
fn crossing_cells_are_clamped_to_the_interior() {
    // the cut line x = 0 lies on the border of the grid
    let low = plan(&arc(0, (-3, 5), (4, 5)), Coord::new(0, 8), grid16());
    assert_eq!(
        low,
        Plan::Cut {
            heading: Heading::South,
            cell: Coord::new(1, 5),
            first: Segment::Northeast,
            second: Segment::Southeast,
        }
    );
    // the midpoint lies beyond the grid
    let high = plan(&arc(0, (2, 20), (14, 40)), Coord::new(8, 8), grid16());
    assert_eq!(
        high,
        Plan::Cut {
            heading: Heading::South,
            cell: Coord::new(8, 15),
            first: Segment::Northwest,
            second: Segment::Southwest,
        }
    );
    let far = plan(&arc(0, (-100, -100), (100, 300)), Coord::new(50, 10), grid16());
    assert_eq!(
        far,
        Plan::CutTwice {
            east_west: Heading::West,
            on_x: Coord::new(15, 15),
            north_south: Heading::South,
            on_y: Coord::new(1, 10),
        }
    );
}

#[test]
fn diagonal_tags_follow_the_table() {
    let ne = Segment::Northeast;
    let se = Segment::Southeast;
    let sw = Segment::Southwest;
    let nw = Segment::Northwest;
    assert_eq!(diagonal_tags(true, true, true), (ne, se, sw));
    assert_eq!(diagonal_tags(true, true, false), (ne, nw, sw));
    assert_eq!(diagonal_tags(true, false, true), (nw, ne, se));
    assert_eq!(diagonal_tags(true, false, false), (nw, sw, se));
    assert_eq!(diagonal_tags(false, true, true), (se, ne, nw));
    assert_eq!(diagonal_tags(false, true, false), (se, sw, nw));
    assert_eq!(diagonal_tags(false, false, true), (sw, se, ne));
    assert_eq!(diagonal_tags(false, false, false), (sw, nw, ne));
}

#[test]
fn trivial_arc_stays_whole_in_one_pass() {
    let arcs = vec![arc(0, (3, 3), (7, 7))];
    let q = partition(grid16(), &flat, &arcs, &[], 8, 8, full()).unwrap();
    assert_eq!(sizes(&q), (1, 0, 0, 0));
    assert_eq!(q.ne[0], arcs[0]);
    assert_eq!((q.vertical, q.horizontal, q.diagonal), (0, 0, 0));
}

#[test]
fn trivial_arc_search_terminates() {
    // The first pass, around (8, 8), leaves the arc whole in the northeast.
    // That is as uneven as a partition can be, so the search moves on: to
    // (4, 4), to (2, 6), and it ends at (3, 6), where the arc is cut once.
    let arcs = vec![arc(0, (3, 3), (7, 7))];
    let pips = pips_everywhere(16);
    let found = find_partition_point(grid16(), &flat, &arcs, &pips, 0, 16, 0, 16).unwrap();
    assert_eq!((found.x, found.y), (3, 6));
    assert_eq!(found.passes, 4);
    assert_eq!(sizes(&found.quadrants), (0, 1, 1, 0));
    assert_eq!(found.quadrants.horizontal, 1);
    assert_eq!(found.quadrants.se[0].get_source_loc(), at(3, 3));
    assert_eq!(found.quadrants.se[0].get_sink_loc(), at(5, 6));
    assert_eq!(found.quadrants.sw[0].get_source_loc(), at(5, 6));
    assert_eq!(found.quadrants.sw[0].get_sink_loc(), at(7, 7));
}

#[test]
fn trivial_arc_search_without_pips_fails_at_the_first_cut() {
    let arcs = vec![arc(0, (3, 3), (7, 7))];
    let found = find_partition_point(grid16(), &flat, &arcs, &[], 0, 16, 0, 16);
    assert_eq!(
        found.err(),
        Some(MissingBucket { arc: 0, heading: Heading::West, cell: Coord::new(4, 4) })
    );
}

#[test]
fn balanced_cross_has_one_arc_in_each_quadrant() {
    let arcs = vec![
        arc(0, (2, 2), (6, 6)),
        arc(1, (10, 2), (14, 6)),
        arc(2, (10, 10), (14, 14)),
        arc(3, (2, 10), (6, 14)),
    ];
    let found = find_partition_point(grid16(), &flat, &arcs, &[], 0, 16, 0, 16).unwrap();
    assert_eq!((found.x, found.y), (8, 8));
    assert_eq!(found.passes, 1);
    assert_eq!(sizes(&found.quadrants), (1, 1, 1, 1));
    assert_eq!(found.quadrants.ne[0], arcs[0]);
    assert_eq!(found.quadrants.se[0], arcs[1]);
    assert_eq!(found.quadrants.sw[0], arcs[2]);
    assert_eq!(found.quadrants.nw[0], arcs[3]);
    assert_eq!(awooter::balance::distortion_percent(1, 1, 1, 1), Some(0));
}

#[test]
fn balanced_ring_of_crossing_arcs() {
    // one arc from each quadrant into the next
    let arcs = vec![
        arc(0, (4, 4), (12, 4)),
        arc(1, (12, 4), (12, 12)),
        arc(2, (12, 12), (4, 12)),
        arc(3, (4, 12), (4, 4)),
    ];
    let pips = pips_everywhere(16);
    let found = find_partition_point(grid16(), &flat, &arcs, &pips, 0, 16, 0, 16).unwrap();
    assert_eq!((found.x, found.y), (8, 8));
    assert_eq!(found.passes, 1);
    assert_eq!(sizes(&found.quadrants), (2, 2, 2, 2));
    assert_eq!(found.quadrants.vertical, 2);
    assert_eq!(found.quadrants.horizontal, 2);
    assert_eq!(found.quadrants.diagonal, 0);
}

#[test]
fn vertical_only_needs_a_pip_that_heads_the_arcs_way() {
    // the source lies north of the cut, so the arc travels south; a pip that
    // heads north cannot carry it
    let arcs = vec![arc(0, (2, 5), (14, 5))];
    let pips = vec![pip(0, 8, 5, -1, 0)];
    let result = partition(grid16(), &flat, &arcs, &pips, 8, 8, full());
    assert_eq!(
        result.err(),
        Some(MissingBucket { arc: 0, heading: Heading::South, cell: Coord::new(8, 5) })
    );
}

#[test]
fn vertical_only_going_north() {
    let arcs = vec![arc(0, (14, 5), (2, 5))];
    let pips = vec![pip(0, 8, 5, -1, 0)];
    // y = 8: the arc lies east of the cut
    let q = partition(grid16(), &flat, &arcs, &pips, 8, 8, full()).unwrap();
    assert_eq!(sizes(&q), (1, 1, 0, 0));
    assert_eq!(q.se[0], Arc::new(WireId(0), at(14, 5), WireId(1000), at(8, 5)));
    assert_eq!(q.ne[0], Arc::new(WireId(2000), at(8, 5), WireId(1), at(2, 5)));
    assert_eq!((q.vertical, q.horizontal, q.diagonal), (1, 0, 0));
    // y = 5 and y = 3: the arc lies west of the cut
    let q = partition(grid16(), &flat, &arcs, &pips, 8, 5, full()).unwrap();
    assert_eq!(sizes(&q), (0, 0, 1, 1));
    let q = partition(grid16(), &flat, &arcs, &pips, 8, 3, full()).unwrap();
    assert_eq!(sizes(&q), (0, 0, 1, 1));
    assert_eq!(q.sw[0], Arc::new(WireId(0), at(14, 5), WireId(1000), at(8, 5)));
    assert_eq!(q.nw[0], Arc::new(WireId(2000), at(8, 5), WireId(1), at(2, 5)));
}

#[test]
fn vertical_only_going_south() {
    let arcs = vec![arc(0, (2, 5), (14, 5))];
    let pips = vec![pip(0, 8, 5, 1, 0)];
    let q = partition(grid16(), &flat, &arcs, &pips, 8, 8, full()).unwrap();
    assert_eq!(sizes(&q), (1, 1, 0, 0));
    assert_eq!(q.ne[0], Arc::new(WireId(0), at(2, 5), WireId(1000), at(8, 5)));
    assert_eq!(q.se[0], Arc::new(WireId(2000), at(8, 5), WireId(1), at(14, 5)));
    let q = partition(grid16(), &flat, &arcs, &pips, 8, 5, full()).unwrap();
    assert_eq!(sizes(&q), (0, 0, 1, 1));
    assert_eq!(q.nw[0], Arc::new(WireId(0), at(2, 5), WireId(1000), at(8, 5)));
    assert_eq!(q.sw[0], Arc::new(WireId(2000), at(8, 5), WireId(1), at(14, 5)));
}

#[test]
fn horizontal_only_is_cut_on_the_line_y() {
    let arcs = vec![arc(0, (5, 2), (7, 14)), arc(1, (12, 14), (9, 2))];
    let pips = vec![pip(0, 6, 8, 0, 1), pip(1, 10, 8, 0, -1)];
    let q = partition(grid16(), &flat, &arcs, &pips, 8, 8, full()).unwrap();
    assert_eq!(sizes(&q), (1, 1, 1, 1));
    assert_eq!(q.ne[0], Arc::new(WireId(0), at(5, 2), WireId(1000), at(6, 8)));
    assert_eq!(q.nw[0], Arc::new(WireId(2000), at(6, 8), WireId(1), at(7, 14)));
    assert_eq!(q.sw[0], Arc::new(WireId(2), at(12, 14), WireId(1001), at(10, 8)));
    assert_eq!(q.se[0], Arc::new(WireId(2001), at(10, 8), WireId(3), at(9, 2)));
    assert_eq!((q.vertical, q.horizontal, q.diagonal), (0, 2, 0));
}

#[test]
fn diagonal_is_cut_twice() {
    let arcs = vec![arc(0, (2, 2), (14, 14))];
    // one pip heading west and one heading south, both in the cell (8, 8)
    let pips = vec![pip(1, 8, 8, 0, 1), pip(2, 8, 8, 1, 0)];
    let q = partition(grid16(), &flat, &arcs, &pips, 8, 8, full()).unwrap();
    // the source lies north and east; the cell of the first crossing does not
    // lie east of the point: northeast, northwest, southwest
    assert_eq!(sizes(&q), (1, 0, 1, 1));
    assert_eq!(q.ne[0], Arc::new(WireId(0), at(2, 2), WireId(1002), at(8, 8)));
    assert_eq!(q.nw[0], Arc::new(WireId(2002), at(8, 8), WireId(1001), at(8, 8)));
    assert_eq!(q.sw[0], Arc::new(WireId(2001), at(8, 8), WireId(1), at(14, 14)));
    assert_eq!((q.vertical, q.horizontal, q.diagonal), (0, 0, 1));
}

#[test]
fn diagonal_cut_by_the_east_west_pip_first() {
    // the line from (2, 4) to (14, 10) meets x = 8 at (8, 7), east of the point
    let arcs = vec![arc(0, (2, 4), (14, 10))];
    let pips = vec![pip(1, 8, 7, 0, 1), pip(2, 10, 8, 1, 0)];
    let q = partition(grid16(), &flat, &arcs, &pips, 8, 8, full()).unwrap();
    assert_eq!(sizes(&q), (1, 1, 1, 0));
    assert_eq!(q.ne[0], Arc::new(WireId(0), at(2, 4), WireId(1001), at(8, 7)));
    assert_eq!(q.se[0], Arc::new(WireId(2001), at(8, 7), WireId(1002), at(10, 8)));
    assert_eq!(q.sw[0], Arc::new(WireId(2002), at(10, 8), WireId(1), at(14, 10)));
}

#[test]
fn diagonal_from_the_south_west() {
    let arcs = vec![arc(0, (14, 14), (2, 2))];
    let pips = vec![pip(1, 8, 8, 0, -1), pip(2, 8, 8, -1, 0)];
    let q = partition(grid16(), &flat, &arcs, &pips, 8, 8, full()).unwrap();
    // source south and west, first crossing not east: southwest, northwest, northeast
    assert_eq!(sizes(&q), (1, 0, 1, 1));
    assert_eq!(q.sw[0], Arc::new(WireId(0), at(14, 14), WireId(1001), at(8, 8)));
    assert_eq!(q.nw[0], Arc::new(WireId(2001), at(8, 8), WireId(1002), at(8, 8)));
    assert_eq!(q.ne[0], Arc::new(WireId(2002), at(8, 8), WireId(1), at(2, 2)));
}

#[test]
fn diagonal_reports_the_east_west_bucket_first() {
    let arcs = vec![arc(0, (2, 2), (14, 14))];
    let none = partition(grid16(), &flat, &arcs, &[], 8, 8, full());
    assert_eq!(
        none.err(),
        Some(MissingBucket { arc: 0, heading: Heading::West, cell: Coord::new(8, 8) })
    );
    let only_west = vec![pip(1, 8, 8, 0, 1)];
    let half = partition(grid16(), &flat, &arcs, &only_west, 8, 8, full());
    assert_eq!(
        half.err(),
        Some(MissingBucket { arc: 0, heading: Heading::South, cell: Coord::new(8, 8) })
    );
}

#[test]
fn missing_bucket_names_the_first_arc_that_fails() {
    let arcs = vec![
        arc(0, (3, 3), (7, 7)),
        arc(1, (2, 5), (14, 5)),
        arc(2, (2, 6), (14, 6)),
        arc(3, (2, 7), (14, 7)),
    ];
    let pips = vec![pip(0, 8, 5, 1, 0), pip(1, 8, 7, 1, 0)];
    let result = partition(grid16(), &flat, &arcs, &pips, 8, 8, full());
    assert_eq!(
        result.err(),
        Some(MissingBucket { arc: 2, heading: Heading::South, cell: Coord::new(8, 6) })
    );
}

#[test]
fn clamped_cell_off_the_cut_lines_has_no_pips() {
    // the arc crosses x = 0, and the crossing cell is moved to x = 1, where
    // the index of the pass holds no pip
    let arcs = vec![arc(0, (-3, 5), (4, 5))];
    let pips = vec![pip(0, 0, 5, 1, 0), pip(1, 1, 5, 1, 0)];
    let wide = Bounds { x_start: -16, x_finish: 16, y_start: -16, y_finish: 16 };
    let result = partition(grid16(), &flat, &arcs, &pips, 0, 8, wide);
    assert_eq!(
        result.err(),
        Some(MissingBucket { arc: 0, heading: Heading::South, cell: Coord::new(1, 5) })
    );
    // on the other line the clamped cell can hold pips
    let arcs = vec![arc(0, (-3, 20), (4, 40))];
    let pips = vec![pip(0, 1, 15, 1, 0)];
    let q = partition(grid16(), &flat, &arcs, &pips, 0, 15, wide).unwrap();
    assert_eq!(sizes(&q), (0, 0, 1, 1));
    assert_eq!(q.nw[0].get_sink_loc(), at(1, 15));
}

#[test]
fn pips_outside_the_bounds_are_not_offered() {
    let arcs = vec![arc(0, (2, 5), (14, 5))];
    let pips = vec![pip(0, 8, 5, 1, 0)];
    let narrow = Bounds { x_start: 0, x_finish: 16, y_start: 6, y_finish: 16 };
    let result = partition(grid16(), &flat, &arcs, &pips, 8, 8, narrow);
    assert_eq!(
        result.err(),
        Some(MissingBucket { arc: 0, heading: Heading::South, cell: Coord::new(8, 5) })
    );
}

#[test]
fn coverage_counts_every_piece() {
    let arcs = vec![
        arc(0, (3, 3), (7, 7)),
        arc(1, (2, 5), (14, 5)),
        arc(2, (14, 12), (2, 12)),
        arc(3, (5, 2), (5, 14)),
        arc(4, (2, 2), (14, 14)),
        arc(5, (9, 9), (9, 9)),
    ];
    let pips = pips_everywhere(16);
    let q = partition(grid16(), &by_id, &arcs, &pips, 8, 8, full()).unwrap();
    assert_eq!((q.vertical, q.horizontal, q.diagonal), (2, 1, 1));
    let total = q.ne.len() + q.se.len() + q.sw.len() + q.nw.len();
    assert_eq!(total, 6 + 2 + 1 + 2 * 1);
    assert_eq!(sizes(&q), (4, 1, 3, 3));
}

#[test]
fn pieces_keep_the_order_of_the_arcs() {
    let arcs = vec![
        arc(0, (2, 5), (14, 5)),
        arc(1, (3, 3), (4, 4)),
        arc(2, (2, 6), (14, 6)),
        arc(3, (5, 5), (6, 6)),
    ];
    let pips = pips_everywhere(16);
    let q = partition(grid16(), &flat, &arcs, &pips, 8, 8, full()).unwrap();
    assert_eq!(q.ne.len(), 4);
    assert_eq!(q.ne[0].get_source_wire(), WireId(0));
    assert_eq!(q.ne[1], arcs[1]);
    assert_eq!(q.ne[2].get_source_wire(), WireId(4));
    assert_eq!(q.ne[3], arcs[3]);
    assert_eq!(q.se.len(), 2);
    assert_eq!(q.se[0].get_sink_wire(), WireId(1));
    assert_eq!(q.se[1].get_sink_wire(), WireId(5));
}

#[test]
fn whole_arcs_lie_in_their_quadrant() {
    let arcs = vec![
        arc(0, (1, 1), (7, 7)),
        arc(1, (8, 0), (15, 7)),
        arc(2, (8, 8), (15, 15)),
        arc(3, (0, 8), (7, 15)),
        arc(4, (7, 8), (0, 9)),
    ];
    let p = Coord::new(8, 8);
    let q = partition(grid16(), &flat, &arcs, &[], 8, 8, full()).unwrap();
    assert_eq!(sizes(&q), (1, 1, 1, 2));
    for (list, segment) in [
        (&q.ne, Segment::Northeast),
        (&q.se, Segment::Southeast),
        (&q.sw, Segment::Southwest),
        (&q.nw, Segment::Northwest),
    ] {
        for piece in list.iter() {
            assert_eq!(Coord::from(piece.get_source_loc()).segment_from(&p), segment);
            assert_eq!(Coord::from(piece.get_sink_loc()).segment_from(&p), segment);
        }
    }
}

#[test]
fn outer_ends_of_cut_arcs_lie_in_their_quadrant() {
    let arcs = vec![arc(0, (2, 5), (14, 5)), arc(1, (2, 2), (14, 14)), arc(2, (12, 14), (9, 2))];
    let pips = pips_everywhere(16);
    let p = Coord::new(8, 8);
    let q = partition(grid16(), &flat, &arcs, &pips, 8, 8, full()).unwrap();
    for (list, segment) in [
        (&q.ne, Segment::Northeast),
        (&q.se, Segment::Southeast),
        (&q.sw, Segment::Southwest),
        (&q.nw, Segment::Northwest),
    ] {
        for piece in list.iter() {
            // an end that no pip made is an end of an arc
            if piece.get_source_wire().0 < 1000 {
                assert_eq!(Coord::from(piece.get_source_loc()).segment_from(&p), segment);
            }
            if piece.get_sink_wire().0 < 1000 {
                assert_eq!(Coord::from(piece.get_sink_loc()).segment_from(&p), segment);
            }
        }
    }
    // the head of an arc that goes south ends on the cut line, which counts
    // as south
    assert_eq!(q.ne[0].get_sink_loc(), at(8, 5));
    assert_eq!(Coord::from(q.ne[0].get_sink_loc()).segment_from(&p), Segment::Southeast);
}

#[test]
fn split_continuity_through_the_chosen_pip() {
    let arcs = vec![arc(0, (2, 5), (14, 5))];
    let pips = vec![pip(5, 8, 5, 1, 0), pip(3, 8, 5, 1, 0)];
    let q = partition(grid16(), &by_id, &arcs, &pips, 8, 8, full()).unwrap();
    // the pip with the lower score is the second of the bucket
    assert_eq!(q.ne[0].get_sink_wire(), pips[1].src_wire);
    assert_eq!(q.se[0].get_source_wire(), pips[1].dst_wire);
    assert_eq!(q.ne[0].get_sink_loc(), q.se[0].get_source_loc());
}

#[test]
fn use_counts_spread_the_arcs_over_the_pips() {
    let arcs = vec![
        arc(0, (2, 5), (14, 5)),
        arc(1, (3, 5), (13, 5)),
        arc(2, (4, 5), (12, 5)),
        arc(3, (5, 5), (11, 5)),
    ];
    let pips = vec![pip(1, 8, 5, 1, 0), pip(2, 8, 5, 1, 0)];
    let seen: RefCell<Vec<(u64, usize)>> = RefCell::new(Vec::new());
    let score = |pip: Pip, uses: usize, _source: WireId, _sink: WireId| -> u64 {
        seen.borrow_mut().push((pip.id.0, uses));
        10 * (uses as u64 + 1)
    };
    let q = partition(grid16(), &score, &arcs, &pips, 8, 8, full()).unwrap();
    let through: Vec<u64> = q.ne.iter().map(|head| head.get_sink_wire().0).collect();
    assert_eq!(through, vec![1001, 1002, 1001, 1002]);
    // what each arc in turn saw of the two use counts
    assert_eq!(
        *seen.borrow(),
        vec![(1, 0), (2, 0), (1, 1), (2, 0), (1, 1), (2, 1), (1, 2), (2, 1)]
    );
    let log = seen.borrow();
    for later in 0..log.len() {
        for earlier in 0..later {
            if log[earlier].0 == log[later].0 {
                assert!(log[earlier].1 <= log[later].1);
            }
        }
    }
}

#[test]
fn use_counts_start_afresh_in_each_pass() {
    let arcs = vec![arc(0, (2, 5), (14, 5))];
    let pips = vec![pip(1, 8, 5, 1, 0)];
    let seen: RefCell<Vec<usize>> = RefCell::new(Vec::new());
    let score = |_pip: Pip, uses: usize, _source: WireId, _sink: WireId| -> u64 {
        seen.borrow_mut().push(uses);
        0
    };
    partition(grid16(), &score, &arcs, &pips, 8, 8, full()).unwrap();
    partition(grid16(), &score, &arcs, &pips, 8, 8, full()).unwrap();
    assert_eq!(*seen.borrow(), vec![0, 0]);
}

#[test]
fn sizes_do_not_depend_on_the_choice_of_pips() {
    let arcs = vec![
        arc(0, (2, 5), (14, 5)),
        arc(1, (2, 2), (14, 14)),
        arc(2, (12, 14), (9, 2)),
        arc(3, (13, 1), (1, 13)),
        arc(4, (1, 1), (2, 2)),
    ];
    let mut pips = pips_everywhere(16);
    pips.extend(pips_everywhere_from(16, 10000));
    let backwards = |pip: Pip, uses: usize, _source: WireId, _sink: WireId| -> u64 {
        u64::MAX - pip.id.0 - uses as u64
    };
    let one = partition(grid16(), &flat, &arcs, &pips, 8, 8, full()).unwrap();
    let two = partition(grid16(), &backwards, &arcs, &pips, 8, 8, full()).unwrap();
    let again = partition(grid16(), &flat, &arcs, &pips, 8, 8, full()).unwrap();
    assert_eq!(sizes(&one), sizes(&two));
    assert_eq!(sizes(&one), sizes(&again));
    assert_eq!(one.ne, again.ne);
    assert_eq!(one.se, again.se);
    assert_eq!(one.sw, again.sw);
    assert_eq!(one.nw, again.nw);
    // the pips themselves differ
    assert_ne!(one.ne[0].get_sink_wire(), two.ne[0].get_sink_wire());
}

#[test]
fn search_moves_toward_the_heavier_half() {
    let arcs = vec![
        arc(0, (1, 1), (1, 1)),
        arc(1, (2, 2), (2, 2)),
        arc(2, (3, 3), (3, 3)),
        arc(3, (12, 12), (12, 12)),
    ];
    let found = find_partition_point(grid16(), &flat, &arcs, &[], 0, 16, 0, 16).unwrap();
    // (8, 8) -> (4, 4) -> (2, 2) -> (3, 3)
    assert_eq!((found.x, found.y), (3, 3));
    assert_eq!(found.passes, 4);
    assert_eq!(sizes(&found.quadrants), (2, 0, 2, 0));
}

#[test]
fn search_moves_each_axis_by_its_own_step() {
    // bounds 0..=16 by 0..=64: steps 4 and 16
    let arcs = vec![arc(0, (1, 60), (1, 60)), arc(1, (2, 61), (2, 61))];
    let found = find_partition_point(grid16(), &flat, &arcs, &[], 0, 16, 0, 64).unwrap();
    // (8, 32): both north and west, so x falls by 4 to 4 and y rises by 16 to 48
    // (4, 48): the same, x to 2 and y to 56
    // (2, 56): the first arc north, the second south; both west: y to 60
    // (2, 60): the step along x is zero
    assert_eq!((found.x, found.y), (2, 60));
    assert_eq!(found.passes, 4);
    assert_eq!(sizes(&found.quadrants), (0, 0, 1, 1));
}

#[test]
fn search_ends_early_when_good_enough() {
    let mut arcs = Vec::new();
    let mut id = 0;
    for (x, y, count) in [(4, 4, 21), (12, 4, 20), (12, 12, 20), (4, 12, 19)] {
        for _ in 0..count {
            arcs.push(arc(id, (x, y), (x, y)));
            id += 1;
        }
    }
    let found = find_partition_point(grid16(), &flat, &arcs, &[], 0, 16, 0, 16).unwrap();
    assert_eq!(found.passes, 1);
    assert_eq!((found.x, found.y), (8, 8));
    assert_eq!(sizes(&found.quadrants), (21, 20, 20, 19));
}

#[test]
fn search_makes_few_passes() {
    // no arcs: no pass is good enough and none moves the point
    let found = find_partition_point(grid16(), &flat, &[], &[], 0, 1024, 0, 1024).unwrap();
    assert_eq!((found.x, found.y), (512, 512));
    assert_eq!(found.passes, 10);
    assert!(found.passes <= 10 + 1);
    let found = find_partition_point(grid16(), &flat, &[], &[], 0, 3, 0, 1000).unwrap();
    assert_eq!((found.x, found.y), (1, 500));
    assert_eq!(found.passes, 1);
    let found = find_partition_point(grid16(), &flat, &[], &[], 0, 4, 0, 0).unwrap();
    assert_eq!((found.x, found.y), (2, 0));
    assert_eq!(found.passes, 2);
    let found = find_partition_point(grid16(), &flat, &[], &[], 5, 5, 7, 7).unwrap();
    assert_eq!((found.x, found.y), (5, 7));
    assert_eq!(found.passes, 1);
}

#[test]
fn search_over_the_widest_bounds() {
    let found =
        find_partition_point(grid16(), &flat, &[], &[], i32::MIN, i32::MAX, i32::MIN, i32::MAX)
            .unwrap();
    assert_eq!((found.x, found.y), (-1, -1));
    assert_eq!(found.passes, 31);
}

#[test]
fn search_stays_inside_the_bounds() {
    let arcs = vec![arc(0, (0, 0), (0, 0)), arc(1, (0, 0), (0, 0)), arc(2, (100, 100), (100, 100))];
    let found = find_partition_point(grid16(), &flat, &arcs, &[], 10, 30, 40, 50).unwrap();
    assert!(10 <= found.x && found.x <= 30);
    assert!(40 <= found.y && found.y <= 50);
    // (20, 45), steps 5 and 2: two arcs north and east, one south and west
    // -> (15, 43), steps 2 and 1 -> (13, 42), steps 1 and 0 -> (12, 42)
    assert_eq!((found.x, found.y), (12, 42));
    assert_eq!(found.passes, 4);
}
