//! Fixed-point coordinates and the exact arithmetic the classifier runs on.
//!
//! A coordinate stores a real value scaled by `SCALE`: one unit of the
//! underlying `i64` is `1 / SCALE` of the unscaled quantity. Min-max
//! normalization and squared-distance comparisons are then exact integer
//! computations, so the acceptance and classification thresholds have no
//! rounding surprises at the boundary.

use vstd::prelude::*;

verus! {

/// Number of fixed-point units per 1.0 of the unscaled value.
pub const SCALE: i64 = 1_000_000;

/// Largest magnitude accepted for a raw (un-normalized) coordinate or bound.
pub const MAX_RAW: i64 = 2_000_000_000_000;

/// Largest magnitude a normalized coordinate or radius may take; chosen so
/// that squared distances between two such values fit in an `i128`.
pub const MAX_NORM: i64 = 4_000_000_000_000_000_000;

/// A two-dimensional point in fixed-point coordinates.
#[derive(Clone, Copy, PartialEq, Eq, Structural, Debug)]
pub struct Point {
    pub x: i64,
    pub y: i64,
}

/// A raw point or bound that normalization can handle without overflow.
pub open spec fn raw_ok(p: Point) -> bool {
    -MAX_RAW <= p.x <= MAX_RAW && -MAX_RAW <= p.y <= MAX_RAW
}

/// A normalized-space point whose squared distances fit the machine.
pub open spec fn norm_ok(p: Point) -> bool {
    -MAX_NORM <= p.x <= MAX_NORM && -MAX_NORM <= p.y <= MAX_NORM
}

/// Both bounds in range, and `max` strictly above `min` in each dimension,
/// so that min-max scaling never divides by zero.
pub open spec fn bounds_valid(maximums: Point, minimums: Point) -> bool {
    raw_ok(maximums) && raw_ok(minimums)
        && minimums.x < maximums.x
        && minimums.y < maximums.y
}

/// Min-max scaling of one coordinate, rounding toward zero.
pub open spec fn spec_norm_coord(p: int, mn: int, mx: int) -> int {
    let num = (p - mn) * (SCALE as int);
    let den = mx - mn;
    if num >= 0 {
        num / den
    } else {
        -((-num) / den)
    }
}

/// Min-max scaling of a point against per-dimension bounds.
pub open spec fn spec_normalize(p: Point, minimums: Point, maximums: Point) -> Point {
    Point {
        x: spec_norm_coord(p.x as int, minimums.x as int, maximums.x as int) as i64,
        y: spec_norm_coord(p.y as int, minimums.y as int, maximums.y as int) as i64,
    }
}

/// Squared Euclidean distance between two points, as a mathematical integer.
pub open spec fn dist_sq(a: Point, b: Point) -> int {
    (a.x - b.x) * (a.x - b.x) + (a.y - b.y) * (a.y - b.y)
}

/// `b` lies within distance `radius` of `a` (inclusive boundary), stated on
/// squared distances: for a non-negative radius this is exactly the
/// Euclidean condition `distance(a, b) <= radius`.
pub open spec fn within(a: Point, b: Point, radius: int) -> bool {
    dist_sq(a, b) <= radius * radius
}

proof fn lemma_norm_coord_in_range(p: int, mn: int, mx: int)
    requires
        -MAX_RAW <= p <= MAX_RAW,
        -MAX_RAW <= mn <= MAX_RAW,
        -MAX_RAW <= mx <= MAX_RAW,
        mn < mx,
    ensures
        -MAX_NORM <= spec_norm_coord(p, mn, mx) <= MAX_NORM,
{
    let num = (p - mn) * (SCALE as int);
    let den = mx - mn;
    assert(-2 * MAX_RAW <= p - mn <= 2 * MAX_RAW);
    assert(-MAX_NORM <= num <= MAX_NORM);
    if num >= 0 {
        vstd::arithmetic::div_mod::lemma_div_is_ordered(num, MAX_NORM as int, den);
        vstd::arithmetic::div_mod::lemma_div_pos_is_pos(num, den);
        vstd::arithmetic::div_mod::lemma_div_is_ordered_by_denominator(MAX_NORM as int, 1, den);
    } else {
        vstd::arithmetic::div_mod::lemma_div_is_ordered(-num, MAX_NORM as int, den);
        vstd::arithmetic::div_mod::lemma_div_pos_is_pos(-num, den);
        vstd::arithmetic::div_mod::lemma_div_is_ordered_by_denominator(MAX_NORM as int, 1, den);
    }
}

/// Law: against any valid bounds, normalizing the point equal to the
/// minimums yields 0 in both dimensions, and normalizing the point equal
/// to the maximums yields exactly one unit of the fixed-point scale.
pub proof fn lemma_normalize_endpoints(minimums: Point, maximums: Point)
    requires
        bounds_valid(maximums, minimums),
    ensures
        spec_normalize(minimums, minimums, maximums) == (Point { x: 0, y: 0 }),
        spec_normalize(maximums, minimums, maximums) == (Point { x: SCALE, y: SCALE }),
{
    let dx = maximums.x - minimums.x;
    let dy = maximums.y - minimums.y;
    vstd::arithmetic::div_mod::lemma_div_by_multiple(0, dx);
    vstd::arithmetic::div_mod::lemma_div_by_multiple(0, dy);
    vstd::arithmetic::div_mod::lemma_div_by_multiple(SCALE as int, dx);
    vstd::arithmetic::div_mod::lemma_div_by_multiple(SCALE as int, dy);
    assert(dx * (SCALE as int) == (SCALE as int) * dx) by (nonlinear_arith);
    assert(dy * (SCALE as int) == (SCALE as int) * dy) by (nonlinear_arith);
}

/// One coordinate of min-max scaling, exact per `spec_norm_coord`.
fn norm_coord(p: i64, mn: i64, mx: i64) -> (r: i64)
    requires
        -MAX_RAW <= p <= MAX_RAW,
        -MAX_RAW <= mn <= MAX_RAW,
        -MAX_RAW <= mx <= MAX_RAW,
        mn < mx,
    ensures
        r == spec_norm_coord(p as int, mn as int, mx as int),
        -MAX_NORM <= r <= MAX_NORM,
{
    proof {
        lemma_norm_coord_in_range(p as int, mn as int, mx as int);
    }
    let den: i64 = mx - mn;
    let diff: i64 = p - mn;
    let num: i64 = diff * SCALE;
    if num >= 0 {
        let q: u64 = (num as u64) / (den as u64);
        q as i64
    } else {
        let neg: i64 = -num;
        let q: u64 = (neg as u64) / (den as u64);
        -(q as i64)
    }
}

/// Min-max normalization of a point against stored bounds. Out-of-range
/// inputs are not clamped: they simply normalize outside `[0, SCALE]`.
pub fn normalize(p: &Point, minimums: &Point, maximums: &Point) -> (r: Point)
    requires
        raw_ok(*p),
        bounds_valid(*maximums, *minimums),
    ensures
        r == spec_normalize(*p, *minimums, *maximums),
        norm_ok(r),
{
    Point {
        x: norm_coord(p.x, minimums.x, maximums.x),
        y: norm_coord(p.y, minimums.y, maximums.y),
    }
}

} // verus!
