//! Integer helpers for crossing a cut line: truncating division, midpoints,
//! the crossing of a line through two points, and clamping to the interior
//! of the grid.

use vstd::prelude::*;
use crate::geometry::Loc;

verus! {

/// The quotient of `a` by `b`, rounded toward zero.
pub open spec fn trunc_div(a: int, b: int) -> int
    recommends
        b != 0,
{
    if a >= 0 {
        if b > 0 {
            a / b
        } else {
            -(a / (-b))
        }
    } else {
        if b > 0 {
            -((-a) / b)
        } else {
            (-a) / (-b)
        }
    }
}

/// The midpoint of two coordinates, rounded toward zero.
pub open spec fn midpoint(a: int, b: int) -> int {
    trunc_div(a + b, 2)
}

/// Where the line through `a` and `b` meets the vertical `x = x_location`.
/// A line that runs along the cut has no single crossing: the midpoint of
/// the two `y` coordinates stands for it.
pub open spec fn crossing_over_x(a: Loc, b: Loc, x_location: int) -> int {
    if a.x == b.x {
        midpoint(a.y as int, b.y as int)
    } else {
        let x_diff = a.x - b.x;
        let y_diff = a.y - b.y;
        trunc_div(y_diff * x_location + a.y * x_diff - a.x * y_diff, x_diff)
    }
}

/// The same crossing with the two axes exchanged.
pub open spec fn crossing_over_y(a: Loc, b: Loc, y_location: int) -> int {
    crossing_over_x(Loc { x: a.y, y: a.x, z: 0 }, Loc { x: b.y, y: b.x, z: 0 }, y_location)
}

/// `value` moved into `[low, high]`.
pub open spec fn clamped(value: int, low: int, high: int) -> int {
    if value < low {
        low
    } else if value > high {
        high
    } else {
        value
    }
}

/// Truncating division on wide integers whose quotient cannot overflow.
fn divide(a: i128, b: i128) -> (q: i128)
    requires
        b != 0,
        a > i128::MIN,
    ensures
        q == trunc_div(a as int, b as int),
{
    proof {
        lemma_trunc_div_bounds(a as int, b as int);
    }
    match a.checked_div(b) {
        Some(q) => q,
        None => {
            proof { assert(false); }
            0
        },
    }
}

/// A truncated quotient is no larger in magnitude than the dividend.
pub proof fn lemma_trunc_div_bounds(a: int, b: int)
    requires
        b != 0,
    ensures
        a >= 0 ==> -a <= trunc_div(a, b) <= a,
        a < 0 ==> a <= trunc_div(a, b) <= -a,
{
    let ua = if a >= 0 { a } else { -a };
    let ub = if b > 0 { b } else { -b };
    assert(0 <= ua / ub <= ua) by (nonlinear_arith)
        requires
            ua >= 0,
            ub > 0,
    ;
}

/// The midpoint of two grid coordinates.
pub fn midpoint_of(a: i32, b: i32) -> (m: i32)
    ensures
        m == midpoint(a as int, b as int),
        a <= b ==> a <= m <= b,
        b <= a ==> b <= m <= a,
{
    let sum: i64 = a as i64 + b as i64;
    let m: i64 = sum / 2;
    m as i32
}

/// The crossing of the line through the two ends with `x = x_location`, for
/// every pair of locations.
pub fn crossing_x(a: Loc, b: Loc, x_location: i32) -> (y: i128)
    ensures
        y == crossing_over_x(a, b, x_location as int),
{
    if a.x == b.x {
        midpoint_of(a.y, b.y) as i128
    } else {
        let x_diff: i128 = a.x as i128 - b.x as i128;
        let y_diff: i128 = a.y as i128 - b.y as i128;
        assert(-0x1_0000_0000 < x_diff < 0x1_0000_0000);
        assert(-0x1_0000_0000 < y_diff < 0x1_0000_0000);
        let ax: i128 = a.x as i128;
        let ay: i128 = a.y as i128;
        let xl: i128 = x_location as i128;
        assert(-0x8000_0000_0000_0000 <= y_diff * xl <= 0x8000_0000_0000_0000) by (nonlinear_arith)
            requires
                -0x1_0000_0000 < y_diff < 0x1_0000_0000,
                -0x8000_0000 <= xl < 0x8000_0000,
        ;
        assert(-0x8000_0000_0000_0000 <= ay * x_diff <= 0x8000_0000_0000_0000) by (nonlinear_arith)
            requires
                -0x1_0000_0000 < x_diff < 0x1_0000_0000,
                -0x8000_0000 <= ay < 0x8000_0000,
        ;
        assert(-0x8000_0000_0000_0000 <= ax * y_diff <= 0x8000_0000_0000_0000) by (nonlinear_arith)
            requires
                -0x1_0000_0000 < y_diff < 0x1_0000_0000,
                -0x8000_0000 <= ax < 0x8000_0000,
        ;
        let numerator: i128 = y_diff * xl + ay * x_diff - ax * y_diff;
        divide(numerator, x_diff)
    }
}

/// The crossing of the line through the two ends with `y = y_location`.
pub fn crossing_y(a: Loc, b: Loc, y_location: i32) -> (x: i128)
    ensures
        x == crossing_over_y(a, b, y_location as int),
{
    crossing_x(Loc { x: a.y, y: a.x, z: 0 }, Loc { x: b.y, y: b.x, z: 0 }, y_location)
}

/// Finds the `y` at which a line is split by the vertical `x = x_location`.
/// The line is taken to go on forever in both directions, and the exact
/// crossing is rounded toward zero.
pub fn split_line_over_x(line: (Loc, Loc), x_location: i32) -> (y: i32)
    requires
        i32::MIN <= crossing_over_x(line.0, line.1, x_location as int) <= i32::MAX,
    ensures
        y == crossing_over_x(line.0, line.1, x_location as int),
{
    crossing_x(line.0, line.1, x_location) as i32
}

/// Finds the `x` at which a line is split by the horizontal `y = y_location`.
pub fn split_line_over_y(line: (Loc, Loc), y_location: i32) -> (x: i32)
    requires
        i32::MIN <= crossing_over_y(line.0, line.1, y_location as int) <= i32::MAX,
    ensures
        x == crossing_over_y(line.0, line.1, y_location as int),
{
    crossing_y(line.0, line.1, y_location) as i32
}

/// Moves a coordinate into `[low, high]`.
pub fn clamp_to(value: i128, low: i32, high: i32) -> (c: i32)
    requires
        low <= high,
    ensures
        c == clamped(value as int, low as int, high as int),
        low <= c <= high,
{
    if value < low as i128 {
        low
    } else if value > high as i128 {
        high
    } else {
        value as i32
    }
}

} // verus!
