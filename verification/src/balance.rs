//! How evenly the arcs are spread over the four quadrants.
//!
//! With `q` arcs in a quadrant out of `t` in all, the quadrant deviates by
//! `q / t - 1/4` from an even share. The distortion of a partition is one
//! hundred times the sum of the four absolute deviations. All comparisons
//! are made on whole numbers: `|4q - t|` is the absolute deviation times
//! `4t`.

use vstd::prelude::*;

verus! {

/// Four times the total, times the absolute deviation of a quadrant with
/// `count` arcs out of `total`.
pub open spec fn deviation(count: int, total: int) -> int {
    if 4 * count >= total {
        4 * count - total
    } else {
        total - 4 * count
    }
}

/// The sum of the four scaled deviations.
pub open spec fn spread(ne: int, se: int, sw: int, nw: int) -> int {
    let total = ne + se + sw + nw;
    deviation(ne, total) + deviation(se, total) + deviation(sw, total) + deviation(nw, total)
}

/// Whether the distortion `100 * spread / (4 * total)` is at most five. A
/// partition without arcs has no distortion and is not balanced.
pub open spec fn balanced(ne: int, se: int, sw: int, nw: int) -> bool {
    let total = ne + se + sw + nw;
    total > 0 && 5 * spread(ne, se, sw, nw) <= total
}

/// The whole percent of the distortion, rounded down.
pub open spec fn distortion(ne: int, se: int, sw: int, nw: int) -> int {
    (25 * spread(ne, se, sw, nw)) / (ne + se + sw + nw)
}

fn scaled_deviation(count: usize, total: u128) -> (d: u128)
    requires
        count <= total <= 4 * usize::MAX,
    ensures
        d == deviation(count as int, total as int),
        d <= 3 * total,
{
    let fourfold: u128 = 4 * (count as u128);
    if fourfold >= total {
        fourfold - total
    } else {
        total - fourfold
    }
}

fn scaled_spread(ne: usize, se: usize, sw: usize, nw: usize) -> (s: u128)
    ensures
        s == spread(ne as int, se as int, sw as int, nw as int),
        s <= 12 * (ne + se + sw + nw),
{
    let total: u128 = ne as u128 + se as u128 + sw as u128 + nw as u128;
    scaled_deviation(ne, total) + scaled_deviation(se, total) + scaled_deviation(sw, total)
        + scaled_deviation(nw, total)
}

/// Tells whether a partition with the given numbers of arcs is good enough:
/// its distortion is at most five percent.
pub fn is_balanced(ne: usize, se: usize, sw: usize, nw: usize) -> (b: bool)
    ensures
        b == balanced(ne as int, se as int, sw as int, nw as int),
{
    let total: u128 = ne as u128 + se as u128 + sw as u128 + nw as u128;
    total > 0 && 5 * scaled_spread(ne, se, sw, nw) <= total
}

/// The distortion of a partition in whole percent, rounded down; `None` for
/// a partition without arcs.
pub fn distortion_percent(ne: usize, se: usize, sw: usize, nw: usize) -> (percent: Option<u64>)
    ensures
        ne + se + sw + nw == 0 <==> percent is None,
        percent matches Some(p) ==> p == distortion(ne as int, se as int, sw as int, nw as int)
            && p <= 150,
{
    let total: u128 = ne as u128 + se as u128 + sw as u128 + nw as u128;
    if total == 0 {
        None
    } else {
        let s = scaled_spread(ne, se, sw, nw);
        proof {
            lemma_spread_bound(ne as int, se as int, sw as int, nw as int);
            let scaled = 25 * s as int;
            let all = total as int;
            assert(scaled / all <= 150) by (nonlinear_arith)
                requires
                    0 <= scaled <= 150 * all,
                    all > 0,
            ;
        }
        Some(((25 * s) / total) as u64)
    }
}

/// The distortion never exceeds one hundred and fifty percent: the scaled
/// spread is at most six times the total.
pub proof fn lemma_spread_bound(ne: int, se: int, sw: int, nw: int)
    requires
        ne >= 0,
        se >= 0,
        sw >= 0,
        nw >= 0,
    ensures
        0 <= spread(ne, se, sw, nw) <= 6 * (ne + se + sw + nw),
{
}

/// How the load of one quadrant compares with an even share.
#[derive(Clone, Copy, Debug, PartialEq, Eq, Hash, Structural)]
pub enum Load {
    /// More than 0.20 above a quarter of the arcs.
    WayTooMany,
    /// More than 0.05 above.
    TooMany,
    Balanced,
    /// More than 0.05 below.
    TooFew,
    /// More than 0.20 below.
    WayTooFew,
}

/// How far the load of one quadrant is from an even share, whichever way.
#[derive(Clone, Copy, Debug, PartialEq, Eq, Hash, Structural)]
pub enum Band {
    /// Within 0.05 of a quarter of the arcs.
    Green,
    /// More than 0.05 away.
    Yellow,
    /// More than 0.20 away.
    Red,
}

/// The load of a quadrant with `count` arcs out of `total`. The deviation
/// `count / total - 1/4` exceeds 0.20 where `20 * count > 9 * total`, and
/// 0.05 where `10 * count > 3 * total`; it is below -0.05 where
/// `5 * count < total` and below -0.20 where `20 * count < total`.
pub open spec fn load(count: int, total: int) -> Load {
    if total <= 0 {
        Load::Balanced
    } else if 20 * count > 9 * total {
        Load::WayTooMany
    } else if 10 * count > 3 * total {
        Load::TooMany
    } else if 20 * count < total {
        Load::WayTooFew
    } else if 5 * count < total {
        Load::TooFew
    } else {
        Load::Balanced
    }
}

/// The band of a load.
pub open spec fn band(load: Load) -> Band {
    match load {
        Load::WayTooMany | Load::WayTooFew => Band::Red,
        Load::TooMany | Load::TooFew => Band::Yellow,
        Load::Balanced => Band::Green,
    }
}

/// Compares the load of a quadrant that holds `count` of `total` arcs with
/// an even share.
pub fn load_of(count: usize, total: usize) -> (l: Load)
    ensures
        l == load(count as int, total as int),
{
    let count = count as u128;
    let total = total as u128;
    if total == 0 {
        Load::Balanced
    } else if 20 * count > 9 * total {
        Load::WayTooMany
    } else if 10 * count > 3 * total {
        Load::TooMany
    } else if 20 * count < total {
        Load::WayTooFew
    } else if 5 * count < total {
        Load::TooFew
    } else {
        Load::Balanced
    }
}

/// The band in which a load is reported.
pub fn band_of(load: Load) -> (b: Band)
    ensures
        b == band(load),
{
    match load {
        Load::WayTooMany | Load::WayTooFew => Band::Red,
        Load::TooMany | Load::TooFew => Band::Yellow,
        Load::Balanced => Band::Green,
    }
}

} // verus!
