//! The Ramer-Douglas-Peucker simplifier.
//!
//! Given a polyline, the algorithm draws the chord from the first point to
//! the last, finds the interior point farthest from that chord, and either
//! collapses the whole segment to its two endpoints (when even the farthest
//! point is within the tolerance) or splits at the farthest point and
//! recurses on the two halves, sharing the split point.
//!
//! `rdp_spec` states the algorithm as a mathematical function on sequences;
//! the executable `simplify`, `simplify_with` and `rdp_alg` return exactly
//! its value.
//!
//! Two details of the scan over interior points are selectable:
//!
//! - the metric (`Metric::Vertical` or `Metric::Perpendicular`), and
//! - the scan range (`Scan`): `AllInterior` examines every interior point,
//!   while `SkipLastInterior` stops one short and never examines the point
//!   just before the last, a truncated variant kept selectable so the two
//!   behaviours can be compared. `simplify` uses `AllInterior`: skipping a
//!   candidate can leave a far-off point undetected.

use vstd::prelude::*;

use crate::geometry::COORD_BOUND;
use crate::geometry::Metric;
use crate::geometry::Point;
use crate::geometry::dist_key;
use crate::geometry::dist_threshold;
use crate::geometry::distance_key;
use crate::geometry::distance_threshold;
use crate::geometry::effective_metric;
use crate::geometry::in_bounds;
use crate::geometry::lemma_dist_threshold_nonneg;
use crate::geometry::resolve_metric;
use crate::geometry::seq_in_bounds;
use crate::CurveError;

verus! {

/// Which interior points the scan for the farthest point examines.
#[derive(Clone, Copy, Debug, PartialEq, Eq, Structural)]
pub enum Scan {
    /// Every interior point, indices `1 ..= len - 2`.
    AllInterior,
    /// All but the last interior point, indices `1 ..= len - 3`.
    SkipLastInterior,
}

/// The exclusive upper bound of the scanned index range for a segment of
/// `len` points.
pub open spec fn scan_hi(len: int, scan: Scan) -> int {
    match scan {
        Scan::AllInterior => len - 1,
        Scan::SkipLastInterior => len - 2,
    }
}

/// The farthest-point scan, stated as the loop runs it: starting from the
/// candidate `(imax, kmax)`, examine indices `i ..` up to but excluding
/// `hi`, replacing the candidate whenever a key strictly exceeds it. The
/// result is the final `(index, key)` pair.
pub open spec fn scan_from(
    s: Seq<Point>,
    l1: Point,
    l2: Point,
    me: Metric,
    i: int,
    hi: int,
    imax: int,
    kmax: int,
) -> (int, int)
    decreases hi - i,
{
    if i >= hi {
        (imax, kmax)
    } else {
        let k = dist_key(me, l1, l2, s[i]);
        if k > kmax {
            scan_from(s, l1, l2, me, i + 1, hi, i, k)
        } else {
            scan_from(s, l1, l2, me, i + 1, hi, imax, kmax)
        }
    }
}

/// The value of the simplifier on a polyline of at least two points: a
/// segment of two points is kept as it is; otherwise the farthest interior
/// point decides between collapsing to the endpoints and splitting there.
/// The two simplified halves are joined with the shared split point written
/// once.
pub open spec fn rdp_spec(s: Seq<Point>, eps: int, m: Metric, scan: Scan) -> Seq<Point>
    decreases s.len(),
{
    if s.len() <= 2 {
        s
    } else {
        let l1 = s[0];
        let l2 = s[s.len() - 1];
        let me = effective_metric(m, l1, l2);
        let hi = scan_hi(s.len() as int, scan);
        let sc = scan_from(s, l1, l2, me, 1, hi, 0, 0);
        if sc.1 > dist_threshold(me, l1, l2, eps) && 1 <= sc.0 < hi {
            rdp_spec(s.subrange(0, sc.0 + 1), eps, m, scan).drop_last() + rdp_spec(
                s.subrange(sc.0, s.len() as int),
                eps,
                m,
                scan,
            )
        } else {
            seq![l1, l2]
        }
    }
}

/// What the scan returns: its key is the largest key in the range (and at
/// least the starting key); when the candidate was replaced at all, the
/// result names the first index attaining that key; when it was not, the
/// starting candidate comes back unchanged.
pub proof fn lemma_scan_from_props(
    s: Seq<Point>,
    l1: Point,
    l2: Point,
    me: Metric,
    i: int,
    hi: int,
    imax: int,
    kmax: int,
)
    requires
        1 <= i,
        hi <= s.len(),
        0 <= kmax,
    ensures
        ({
            let r = scan_from(s, l1, l2, me, i, hi, imax, kmax);
            &&& r.1 >= kmax
            &&& forall|j: int| i <= j < hi ==> #[trigger] dist_key(me, l1, l2, s[j]) <= r.1
            &&& (r.1 > kmax ==> i <= r.0 < hi && dist_key(me, l1, l2, s[r.0]) == r.1 && (forall|
                j: int,
            |
                i <= j < r.0 ==> #[trigger] dist_key(me, l1, l2, s[j]) < r.1))
            &&& (r.1 == kmax ==> r.0 == imax)
        }),
    decreases hi - i,
{
    if i >= hi {
    } else {
        let k = dist_key(me, l1, l2, s[i]);
        if k > kmax {
            lemma_scan_from_props(s, l1, l2, me, i + 1, hi, i, k);
        } else {
            lemma_scan_from_props(s, l1, l2, me, i + 1, hi, imax, kmax);
        }
    }
}

/// A scan over a range whose keys never exceed the starting key keeps the
/// starting candidate.
pub proof fn lemma_scan_from_stable(
    s: Seq<Point>,
    l1: Point,
    l2: Point,
    me: Metric,
    i: int,
    hi: int,
    imax: int,
    kmax: int,
)
    requires
        forall|j: int| i <= j < hi ==> #[trigger] dist_key(me, l1, l2, s[j]) <= kmax,
    ensures
        scan_from(s, l1, l2, me, i, hi, imax, kmax) == (imax, kmax),
    decreases hi - i,
{
    if i >= hi {
    } else {
        lemma_scan_from_stable(s, l1, l2, me, i + 1, hi, imax, kmax);
    }
}

/// A scan whose range has a strict first maximum at `pos` returns exactly
/// `(pos, k)`, whatever candidate below `k` it starts from.
pub proof fn lemma_scan_from_pinned(
    s: Seq<Point>,
    l1: Point,
    l2: Point,
    me: Metric,
    i: int,
    hi: int,
    imax: int,
    kmax: int,
    pos: int,
    k: int,
)
    requires
        1 <= i <= pos < hi,
        hi <= s.len(),
        0 <= kmax < k,
        dist_key(me, l1, l2, s[pos]) == k,
        forall|j: int| i <= j < pos ==> #[trigger] dist_key(me, l1, l2, s[j]) < k,
        forall|j: int| pos < j < hi ==> #[trigger] dist_key(me, l1, l2, s[j]) <= k,
    ensures
        scan_from(s, l1, l2, me, i, hi, imax, kmax) == (pos, k),
    decreases pos - i,
{
    if i == pos {
        lemma_scan_from_stable(s, l1, l2, me, i + 1, hi, pos, k);
    } else {
        let ki = dist_key(me, l1, l2, s[i]);
        if ki > kmax {
            lemma_scan_from_pinned(s, l1, l2, me, i + 1, hi, i, ki, pos, k);
        } else {
            lemma_scan_from_pinned(s, l1, l2, me, i + 1, hi, imax, kmax, pos, k);
        }
    }
}

/// The simplified polyline keeps the endpoints of its input: it has at
/// least two points, the first equals the input's first, and the last
/// equals the input's last.
pub proof fn lemma_rdp_endpoints(s: Seq<Point>, eps: int, m: Metric, scan: Scan)
    requires
        s.len() >= 2,
    ensures
        rdp_spec(s, eps, m, scan).len() >= 2,
        rdp_spec(s, eps, m, scan)[0] == s[0],
        rdp_spec(s, eps, m, scan).last() == s.last(),
    decreases s.len(),
{
    if s.len() <= 2 {
    } else {
        let l1 = s[0];
        let l2 = s[s.len() - 1];
        let me = effective_metric(m, l1, l2);
        let hi = scan_hi(s.len() as int, scan);
        let sc = scan_from(s, l1, l2, me, 1, hi, 0, 0);
        if sc.1 > dist_threshold(me, l1, l2, eps) && 1 <= sc.0 < hi {
            let left = s.subrange(0, sc.0 + 1);
            let right = s.subrange(sc.0, s.len() as int);
            lemma_rdp_endpoints(left, eps, m, scan);
            lemma_rdp_endpoints(right, eps, m, scan);
        } else {
        }
    }
}

/// Runs the farthest-point scan of the chord `data[0]`-`data[len-1]` over
/// indices `1 .. hi`, under the already resolved metric `me`.
fn scan_segment(data: &Vec<Point>, me: Metric, hi: usize) -> (r: (usize, i128))
    requires
        data@.len() >= 2,
        hi <= data@.len(),
        seq_in_bounds(data@),
    ensures
        ({
            let sc = scan_from(data@, data@[0], data@[data@.len() - 1], me, 1, hi as int, 0, 0);
            r.0 as int == sc.0 && r.1 as int == sc.1
        }),
{
    let ghost s = data@;
    let l1 = data[0];
    let l2 = data[data.len() - 1];
    let mut imax: usize = 0;
    let mut kmax: i128 = 0;
    let mut i: usize = 1;
    while i < hi
        invariant
            1 <= i,
            i <= hi || i == 1,
            hi <= s.len(),
            s.len() >= 2,
            seq_in_bounds(s),
            s == data@,
            l1 == s[0],
            l2 == s[s.len() - 1],
            0 <= kmax,
            scan_from(s, l1, l2, me, i as int, hi as int, imax as int, kmax as int) == scan_from(
                s,
                l1,
                l2,
                me,
                1,
                hi as int,
                0,
                0,
            ),
        decreases hi - i,
    {
        let k = distance_key(me, &l1, &l2, &data[i]);
        if k > kmax {
            imax = i;
            kmax = k;
        }
        i = i + 1;
    }
    (imax, kmax)
}

/// The recursion behind the simplifier; callers have ruled the degenerate
/// inputs out, so the result is exactly `rdp_spec`.
fn rdp_rec(data: &Vec<Point>, eps: i64, m: Metric, scan: Scan) -> (r: Vec<Point>)
    requires
        data@.len() >= 2,
        seq_in_bounds(data@),
        0 <= eps <= COORD_BOUND,
    ensures
        r@ == rdp_spec(data@, eps as int, m, scan),
    decreases data@.len(),
{
    let ghost s = data@;
    let n = data.len();
    let l1 = data[0];
    let l2 = data[n - 1];
    if n == 2 {
        let mut out: Vec<Point> = Vec::new();
        out.push(l1);
        out.push(l2);
        proof {
            assert(out@ =~= s);
        }
        return out;
    }
    let me = resolve_metric(m, &l1, &l2);
    let hi: usize = match scan {
        Scan::AllInterior => n - 1,
        Scan::SkipLastInterior => n - 2,
    };
    let (imax, kmax) = scan_segment(data, me, hi);
    let thr = distance_threshold(me, &l1, &l2, eps);
    let ghost sc = scan_from(s, l1, l2, me, 1, hi as int, 0, 0);
    if kmax > thr {
        proof {
            lemma_dist_threshold_nonneg(me, l1, l2, eps as int);
            lemma_scan_from_props(s, l1, l2, me, 1, hi as int, 0, 0);
        }
        let mut left: Vec<Point> = Vec::new();
        let mut i: usize = 0;
        while i <= imax
            invariant
                imax < n,
                n == s.len(),
                s == data@,
                i <= imax + 1,
                left@ == s.subrange(0, i as int),
            decreases imax + 1 - i,
        {
            left.push(data[i]);
            proof {
                assert(left@ =~= s.subrange(0, i + 1 as int));
            }
            i = i + 1;
        }
        let mut right: Vec<Point> = Vec::new();
        let mut j: usize = imax;
        while j < n
            invariant
                imax <= j <= n,
                n == s.len(),
                s == data@,
                right@ == s.subrange(imax as int, j as int),
            decreases n - j,
        {
            right.push(data[j]);
            proof {
                assert(right@ =~= s.subrange(imax as int, j + 1 as int));
            }
            j = j + 1;
        }
        let mut first = rdp_rec(&left, eps, m, scan);
        let mut second = rdp_rec(&right, eps, m, scan);
        proof {
            lemma_rdp_endpoints(left@, eps as int, m, scan);
        }
        first.pop();
        first.append(&mut second);
        return first;
    } else {
        let mut out: Vec<Point> = Vec::new();
        out.push(l1);
        out.push(l2);
        proof {
            assert(out@ =~= seq![l1, l2]);
        }
        return out;
    }
}

/// Simplifies `points` under the given tolerance, metric and scan range.
///
/// Fails exactly when the input has fewer than two points; otherwise the
/// result is exactly `rdp_spec(points@, epsilon, metric, scan)`: a
/// polyline that starts and ends with the input's endpoints and keeps a
/// subset of the interior points, in input order.
pub fn simplify_with(points: &Vec<Point>, epsilon: i64, metric: Metric, scan: Scan) -> (r: Result<
    Vec<Point>,
    CurveError,
>)
    requires
        seq_in_bounds(points@),
        0 <= epsilon <= COORD_BOUND,
    ensures
        points@.len() < 2 ==> r == Err::<Vec<Point>, CurveError>(CurveError::InsufficientPoints),
        points@.len() >= 2 ==> (r matches Ok(v) && v@ == rdp_spec(
            points@,
            epsilon as int,
            metric,
            scan,
        )),
{
    if points.len() < 2 {
        return Err(CurveError::InsufficientPoints);
    }
    Ok(rdp_rec(points, epsilon, metric, scan))
}

/// Simplifies `points` with the vertical-distance metric over every
/// interior point: the default reading of the algorithm.
pub fn simplify(points: &Vec<Point>, epsilon: i64) -> (r: Result<Vec<Point>, CurveError>)
    requires
        seq_in_bounds(points@),
        0 <= epsilon <= COORD_BOUND,
    ensures
        points@.len() < 2 ==> r == Err::<Vec<Point>, CurveError>(CurveError::InsufficientPoints),
        points@.len() >= 2 ==> (r matches Ok(v) && v@ == rdp_spec(
            points@,
            epsilon as int,
            Metric::Vertical,
            Scan::AllInterior,
        )),
{
    simplify_with(points, epsilon, Metric::Vertical, Scan::AllInterior)
}

/// Simplifies `data` with the vertical-distance metric and the truncated
/// scan that never examines the last interior point. Prefer `simplify`,
/// which examines every interior point; this variant exists so the two
/// scan bounds can be compared.
pub fn rdp_alg(data: &Vec<Point>, eps: i64) -> (r: Result<Vec<Point>, CurveError>)
    requires
        seq_in_bounds(data@),
        0 <= eps <= COORD_BOUND,
    ensures
        data@.len() < 2 ==> r == Err::<Vec<Point>, CurveError>(CurveError::InsufficientPoints),
        data@.len() >= 2 ==> (r matches Ok(v) && v@ == rdp_spec(
            data@,
            eps as int,
            Metric::Vertical,
            Scan::SkipLastInterior,
        )),
{
    simplify_with(data, eps, Metric::Vertical, Scan::SkipLastInterior)
}

} // verus!
