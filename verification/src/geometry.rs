//! Points, distance metrics, and the exact scaled comparisons behind them.
//!
//! A point's deviation from the chord through `l1` and `l2` can be measured
//! two ways: vertically (difference in y between the point and the chord at
//! the point's x) or perpendicularly (shortest Euclidean distance to the
//! chord's line). Both are ratios of the same integer quantity, the cross
//! product `cross(l1, l2, p)`:
//!
//! - vertical distance      = |cross| / |l2.x - l1.x|
//! - perpendicular distance = |cross| / sqrt((l2.x - l1.x)^2 + (l2.y - l1.y)^2)
//!
//! So distances never have to be computed: comparing a distance against a
//! tolerance, or against another distance to the same chord, is an exact
//! integer comparison of a *key* against a *threshold*, both defined here.

use vstd::prelude::*;

verus! {

/// Every coordinate and tolerance handed to the geometry must lie within
/// this bound, so that the scaled integer comparisons fit in an `i128`.
pub const COORD_BOUND: i64 = 1073741824;

/// A point of the plane in fixed-point coordinates.
#[derive(Clone, Copy, Debug, PartialEq, Eq, Structural)]
pub struct Point {
    pub x: i64,
    pub y: i64,
}

impl Point {
    /// Builds the point `(x, y)`.
    pub fn new(x: i64, y: i64) -> (p: Point)
        ensures
            p == (Point { x, y }),
    {
        Point { x, y }
    }

    /// The point's coordinates as an `[x, y]` pair, ready for a renderer.
    pub fn as_arr(&self) -> (a: [i64; 2])
        ensures
            a@ == seq![self.x, self.y],
    {
        [self.x, self.y]
    }
}

/// How deviation from a chord is measured.
#[derive(Clone, Copy, Debug, PartialEq, Eq, Structural)]
pub enum Metric {
    /// Difference in y between the point and the chord at the point's x.
    /// Meaningful when the input is monotonic in x; undefined on a vertical
    /// chord, where the simplifier falls back to `Perpendicular`.
    Vertical,
    /// Shortest Euclidean distance from the point to the chord's line,
    /// the standard Ramer-Douglas-Peucker metric.
    Perpendicular,
}

/// The absolute value of `a`.
pub open spec fn abs_int(a: int) -> int {
    if a < 0 {
        -a
    } else {
        a
    }
}

/// Twice the signed area of the triangle `l1`, `l2`, `p`; zero exactly when
/// the three points are collinear.
pub open spec fn cross(l1: Point, l2: Point, p: Point) -> int {
    (l2.x - l1.x) * (p.y - l1.y) - (p.x - l1.x) * (l2.y - l1.y)
}

/// The squared length of the chord from `l1` to `l2`.
pub open spec fn chord_len_sq(l1: Point, l2: Point) -> int {
    (l2.x - l1.x) * (l2.x - l1.x) + (l2.y - l1.y) * (l2.y - l1.y)
}

/// The metric actually applied to the chord `l1`-`l2`: a vertical chord has
/// no vertical distance, so the perpendicular metric takes over there.
pub open spec fn effective_metric(m: Metric, l1: Point, l2: Point) -> Metric {
    if m == Metric::Vertical && l1.x == l2.x {
        Metric::Perpendicular
    } else {
        m
    }
}

/// The comparison key of `p` against the chord `l1`-`l2`: the distance of
/// `p` from the chord under `m`, scaled by a positive quantity that depends
/// only on the chord. Keys of two points against the same chord order
/// exactly as their distances do.
pub open spec fn dist_key(m: Metric, l1: Point, l2: Point, p: Point) -> int {
    match m {
        Metric::Vertical => abs_int(cross(l1, l2, p)),
        Metric::Perpendicular => cross(l1, l2, p) * cross(l1, l2, p),
    }
}

/// The tolerance `eps`, scaled the same way as `dist_key`, so that for
/// `eps >= 0` the distance of `p` exceeds `eps` exactly when
/// `dist_key(m, l1, l2, p) > dist_threshold(m, l1, l2, eps)`.
pub open spec fn dist_threshold(m: Metric, l1: Point, l2: Point, eps: int) -> int {
    match m {
        Metric::Vertical => eps * abs_int(l2.x - l1.x),
        Metric::Perpendicular => eps * eps * chord_len_sq(l1, l2),
    }
}

/// Whether the point's coordinates lie within `COORD_BOUND`.
pub open spec fn in_bounds(p: Point) -> bool {
    &&& -COORD_BOUND <= p.x <= COORD_BOUND
    &&& -COORD_BOUND <= p.y <= COORD_BOUND
}

/// Whether every point of the sequence lies within `COORD_BOUND`.
pub open spec fn seq_in_bounds(s: Seq<Point>) -> bool {
    forall|i: int| 0 <= i < s.len() ==> in_bounds(#[trigger] s[i])
}

/// For a nonnegative tolerance the threshold is nonnegative.
pub proof fn lemma_dist_threshold_nonneg(m: Metric, l1: Point, l2: Point, eps: int)
    requires
        eps >= 0,
    ensures
        dist_threshold(m, l1, l2, eps) >= 0,
{
    let a = abs_int(l2.x - l1.x);
    let q = chord_len_sq(l1, l2);
    assert(eps * a >= 0) by (nonlinear_arith)
        requires
            eps >= 0,
            a >= 0,
    ;
    assert((l2.x - l1.x) * (l2.x - l1.x) >= 0) by (nonlinear_arith);
    assert((l2.y - l1.y) * (l2.y - l1.y) >= 0) by (nonlinear_arith);
    assert(eps * eps * q >= 0) by (nonlinear_arith)
        requires
            eps >= 0,
            q >= 0,
    ;
}

/// Raising the tolerance never lowers the threshold.
pub proof fn lemma_dist_threshold_monotone(
    m: Metric,
    l1: Point,
    l2: Point,
    eps1: int,
    eps2: int,
)
    requires
        0 <= eps1 <= eps2,
    ensures
        dist_threshold(m, l1, l2, eps1) <= dist_threshold(m, l1, l2, eps2),
{
    let a = abs_int(l2.x - l1.x);
    let q = chord_len_sq(l1, l2);
    assert(eps1 * a <= eps2 * a) by (nonlinear_arith)
        requires
            0 <= eps1 <= eps2,
            a >= 0,
    ;
    assert((l2.x - l1.x) * (l2.x - l1.x) >= 0) by (nonlinear_arith);
    assert((l2.y - l1.y) * (l2.y - l1.y) >= 0) by (nonlinear_arith);
    assert(eps1 * eps1 * q <= eps2 * eps2 * q) by (nonlinear_arith)
        requires
            0 <= eps1 <= eps2,
            q >= 0,
    ;
}

/// The chord's own endpoints are at distance zero from it, under any metric.
pub proof fn lemma_dist_key_endpoints_zero(m: Metric, l1: Point, l2: Point)
    ensures
        dist_key(m, l1, l2, l1) == 0,
        dist_key(m, l1, l2, l2) == 0,
{
    assert(cross(l1, l2, l1) == 0) by (nonlinear_arith);
    assert(cross(l1, l2, l2) == 0) by (nonlinear_arith);
}

/// Computes `dist_key(m, *l1, *l2, *p)` exactly, in `i128` arithmetic.
pub fn distance_key(m: Metric, l1: &Point, l2: &Point, p: &Point) -> (k: i128)
    requires
        in_bounds(*l1),
        in_bounds(*l2),
        in_bounds(*p),
    ensures
        k as int == dist_key(m, *l1, *l2, *p),
{
    let dx: i128 = l2.x as i128 - l1.x as i128;
    let dy: i128 = l2.y as i128 - l1.y as i128;
    let px: i128 = p.x as i128 - l1.x as i128;
    let py: i128 = p.y as i128 - l1.y as i128;
    proof {
        assert(-0x4000000000000000 <= dx * py <= 0x4000000000000000) by (nonlinear_arith)
            requires
                -0x80000000 <= dx <= 0x80000000,
                -0x80000000 <= py <= 0x80000000,
        ;
        assert(-0x4000000000000000 <= px * dy <= 0x4000000000000000) by (nonlinear_arith)
            requires
                -0x80000000 <= px <= 0x80000000,
                -0x80000000 <= dy <= 0x80000000,
        ;
    }
    let c: i128 = dx * py - px * dy;
    match m {
        Metric::Vertical => {
            if c < 0 {
                -c
            } else {
                c
            }
        },
        Metric::Perpendicular => {
            proof {
                assert(c * c <= 0x40000000000000000000000000000000) by (nonlinear_arith)
                    requires
                        -0x8000000000000000 <= c <= 0x8000000000000000,
                ;
                assert(c * c >= 0) by (nonlinear_arith);
            }
            c * c
        },
    }
}

/// Computes `dist_threshold(m, *l1, *l2, eps)` exactly, in `i128` arithmetic.
pub fn distance_threshold(m: Metric, l1: &Point, l2: &Point, eps: i64) -> (t: i128)
    requires
        in_bounds(*l1),
        in_bounds(*l2),
        0 <= eps <= COORD_BOUND,
    ensures
        t as int == dist_threshold(m, *l1, *l2, eps as int),
{
    let dx: i128 = l2.x as i128 - l1.x as i128;
    let dy: i128 = l2.y as i128 - l1.y as i128;
    let e: i128 = eps as i128;
    match m {
        Metric::Vertical => {
            let a: i128 = if dx < 0 {
                -dx
            } else {
                dx
            };
            proof {
                assert(0 <= e * a <= 0x4000000000000000) by (nonlinear_arith)
                    requires
                        0 <= e <= 0x40000000,
                        0 <= a <= 0x80000000,
                ;
            }
            e * a
        },
        Metric::Perpendicular => {
            proof {
                assert(0 <= dx * dx <= 0x4000000000000000) by (nonlinear_arith)
                    requires
                        -0x80000000 <= dx <= 0x80000000,
                ;
                assert(0 <= dy * dy <= 0x4000000000000000) by (nonlinear_arith)
                    requires
                        -0x80000000 <= dy <= 0x80000000,
                ;
                assert(0 <= e * e <= 0x1000000000000000) by (nonlinear_arith)
                    requires
                        0 <= e <= 0x40000000,
                ;
                assert(0 <= (e * e) * (dx * dx + dy * dy) <= 0x8000000000000000000000000000000)
                    by (nonlinear_arith)
                    requires
                        0 <= e * e <= 0x1000000000000000,
                        0 <= dx * dx + dy * dy <= 0x8000000000000000,
                ;
            }
            (e * e) * (dx * dx + dy * dy)
        },
    }
}

/// The metric actually applied to the chord `l1`-`l2`; see `effective_metric`.
pub fn resolve_metric(m: Metric, l1: &Point, l2: &Point) -> (r: Metric)
    ensures
        r == effective_metric(m, *l1, *l2),
{
    match m {
        Metric::Vertical => {
            if l1.x == l2.x {
                Metric::Perpendicular
            } else {
                Metric::Vertical
            }
        },
        Metric::Perpendicular => Metric::Perpendicular,
    }
}

} // verus!
