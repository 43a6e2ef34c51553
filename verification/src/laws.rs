//! Laws of the simplifier, proved once and for all over `rdp_spec`.
//!
//! `lemma_rdp_endpoints` (the simplified polyline keeps its endpoints)
//! lives beside `rdp_spec` itself; this module holds the remaining laws:
//! the output never gains points, a larger tolerance never keeps more
//! points, collinear input collapses to its two endpoints and only
//! collinear input does so at tolerance zero, a point off the chord
//! survives a zero tolerance, every input point stays within the
//! tolerance of a surviving chord, the output is a subsequence of the
//! input, and simplifying twice is the same as simplifying once.

use vstd::prelude::*;
use vstd::seq_lib::group_to_multiset_ensures;
use vstd::multiset::group_multiset_axioms;

use crate::geometry::Metric;
use crate::geometry::Point;
use crate::geometry::cross;
use crate::geometry::dist_key;
use crate::geometry::dist_threshold;
use crate::geometry::effective_metric;
use crate::geometry::lemma_dist_key_endpoints_zero;
use crate::geometry::lemma_dist_threshold_monotone;
use crate::geometry::lemma_dist_threshold_nonneg;
use crate::rdp::Scan;
use crate::rdp::lemma_rdp_endpoints;
use crate::rdp::lemma_scan_from_pinned;
use crate::rdp::lemma_scan_from_props;
use crate::rdp::rdp_spec;
use crate::rdp::scan_from;
use crate::rdp::scan_hi;

verus! {

/// Simplification never adds a point: the output is at most as long as
/// the input.
pub proof fn lemma_rdp_len_le(s: Seq<Point>, eps: int, m: Metric, scan: Scan)
    requires
        s.len() >= 2,
    ensures
        rdp_spec(s, eps, m, scan).len() <= s.len(),
    decreases s.len(),
{
    if s.len() <= 2 {
    } else {
        let l1 = s[0];
        let l2 = s[s.len() - 1];
        let me = effective_metric(m, l1, l2);
        let hi = scan_hi(s.len() as int, scan);
        let sc = scan_from(s, l1, l2, me, 1, hi, 0, 0);
        if sc.1 > dist_threshold(me, l1, l2, eps) && 1 <= sc.0 < hi {
            let left = s.subrange(0, sc.0 + 1);
            let right = s.subrange(sc.0, s.len() as int);
            lemma_rdp_len_le(left, eps, m, scan);
            lemma_rdp_len_le(right, eps, m, scan);
            lemma_rdp_endpoints(left, eps, m, scan);
            lemma_rdp_endpoints(right, eps, m, scan);
        }
    }
}

/// Raising the tolerance never keeps more points: with the same input,
/// metric and scan range, the output under the larger tolerance is at
/// most as long as the output under the smaller one.
pub proof fn lemma_rdp_monotone_eps(s: Seq<Point>, eps1: int, eps2: int, m: Metric, scan: Scan)
    requires
        s.len() >= 2,
        0 <= eps1 <= eps2,
    ensures
        rdp_spec(s, eps2, m, scan).len() <= rdp_spec(s, eps1, m, scan).len(),
    decreases s.len(),
{
    if s.len() <= 2 {
    } else {
        let l1 = s[0];
        let l2 = s[s.len() - 1];
        let me = effective_metric(m, l1, l2);
        let hi = scan_hi(s.len() as int, scan);
        let sc = scan_from(s, l1, l2, me, 1, hi, 0, 0);
        lemma_dist_threshold_monotone(me, l1, l2, eps1, eps2);
        if sc.1 > dist_threshold(me, l1, l2, eps2) && 1 <= sc.0 < hi {
            let left = s.subrange(0, sc.0 + 1);
            let right = s.subrange(sc.0, s.len() as int);
            lemma_rdp_monotone_eps(left, eps1, eps2, m, scan);
            lemma_rdp_monotone_eps(right, eps1, eps2, m, scan);
            lemma_rdp_endpoints(left, eps2, m, scan);
            lemma_rdp_endpoints(right, eps2, m, scan);
            lemma_rdp_endpoints(left, eps1, m, scan);
            lemma_rdp_endpoints(right, eps1, m, scan);
        } else if sc.1 > dist_threshold(me, l1, l2, eps1) && 1 <= sc.0 < hi {
            lemma_rdp_endpoints(s, eps1, m, scan);
        }
    }
}

/// Whether every point of the polyline lies on the chord from its first
/// point to its last.
pub open spec fn collinear(s: Seq<Point>) -> bool {
    forall|i: int| 0 <= i < s.len() ==> cross(s[0], s[s.len() - 1], #[trigger] s[i]) == 0
}

/// A collinear polyline collapses to exactly its two endpoints, whatever
/// its length, tolerance, metric or scan range.
pub proof fn lemma_rdp_collinear(s: Seq<Point>, eps: int, m: Metric, scan: Scan)
    requires
        s.len() >= 2,
        eps >= 0,
        collinear(s),
    ensures
        rdp_spec(s, eps, m, scan) == seq![s[0], s[s.len() - 1]],
{
    let l1 = s[0];
    let l2 = s[s.len() - 1];
    if s.len() <= 2 {
        assert(rdp_spec(s, eps, m, scan) =~= seq![l1, l2]);
    } else {
        let me = effective_metric(m, l1, l2);
        let hi = scan_hi(s.len() as int, scan);
        let sc = scan_from(s, l1, l2, me, 1, hi, 0, 0);
        assert forall|j: int| 1 <= j < hi implies #[trigger] dist_key(me, l1, l2, s[j]) == 0 by {
            assert(cross(l1, l2, s[j]) == 0);
        }
        lemma_scan_from_props(s, l1, l2, me, 1, hi, 0, 0);
        assert(sc.1 == 0);
        lemma_dist_threshold_nonneg(me, l1, l2, eps);
    }
}

/// The converse of `lemma_rdp_collinear` at tolerance zero: when the full
/// scan collapses a polyline to two points, every input point lay exactly
/// on the chord between the endpoints. Together the two lemmas say that
/// with `eps == 0` the output is `[first, last]` precisely for collinear
/// input.
pub proof fn lemma_rdp_collapse_only_collinear(s: Seq<Point>, m: Metric)
    requires
        s.len() >= 2,
        rdp_spec(s, 0, m, Scan::AllInterior).len() == 2,
    ensures
        collinear(s),
{
    let l1 = s[0];
    let l2 = s[s.len() - 1];
    assert(cross(l1, l2, l1) == 0) by (nonlinear_arith);
    assert(cross(l1, l2, l2) == 0) by (nonlinear_arith);
    if s.len() <= 2 {
    } else {
        let me = effective_metric(m, l1, l2);
        let hi = scan_hi(s.len() as int, Scan::AllInterior);
        let sc = scan_from(s, l1, l2, me, 1, hi, 0, 0);
        lemma_scan_from_props(s, l1, l2, me, 1, hi, 0, 0);
        assert(dist_threshold(me, l1, l2, 0) == 0) by {
            match me {
                Metric::Vertical => {
                    assert(0 * crate::geometry::abs_int(l2.x - l1.x) == 0) by (nonlinear_arith);
                },
                Metric::Perpendicular => {
                    assert(0 * 0 * crate::geometry::chord_len_sq(l1, l2) == 0)
                        by (nonlinear_arith);
                },
            }
        }
        if sc.1 > 0 {
            // a split would leave at least one interior point in the output
            let left = s.subrange(0, sc.0 + 1);
            let right = s.subrange(sc.0, s.len() as int);
            lemma_rdp_endpoints(left, 0, m, Scan::AllInterior);
            lemma_rdp_endpoints(right, 0, m, Scan::AllInterior);
            assert(false);
        }
        assert forall|i: int| 0 <= i < s.len() implies cross(l1, l2, #[trigger] s[i]) == 0 by {
            if 1 <= i < hi {
                let c = cross(l1, l2, s[i]);
                assert(dist_key(me, l1, l2, s[i]) <= sc.1);
                assert(c * c >= 0) by (nonlinear_arith);
                assert(c * c == 0 ==> c == 0) by (nonlinear_arith);
            }
        }
    }
}

/// With tolerance zero, a polyline with any interior point off the chord
/// between its endpoints does not collapse: at least one interior point
/// survives. Together with `lemma_rdp_collinear` this is the zero-epsilon
/// sanity of the algorithm: only deviation zero is discarded.
pub proof fn lemma_rdp_eps_zero_keeps_split(s: Seq<Point>, m: Metric)
    requires
        s.len() >= 3,
        exists|i: int|
            1 <= i < s.len() - 1 && cross(s[0], s[s.len() - 1], #[trigger] s[i]) != 0,
    ensures
        rdp_spec(s, 0, m, Scan::AllInterior).len() >= 3,
{
    let l1 = s[0];
    let l2 = s[s.len() - 1];
    let me = effective_metric(m, l1, l2);
    let hi = scan_hi(s.len() as int, Scan::AllInterior);
    let sc = scan_from(s, l1, l2, me, 1, hi, 0, 0);
    let i = choose|i: int| 1 <= i < s.len() - 1 && cross(l1, l2, #[trigger] s[i]) != 0;
    let c = cross(l1, l2, s[i]);
    assert(c * c > 0) by (nonlinear_arith)
        requires
            c != 0,
    ;
    assert(dist_key(me, l1, l2, s[i]) > 0);
    lemma_scan_from_props(s, l1, l2, me, 1, hi, 0, 0);
    assert(sc.1 > 0);
    assert(dist_threshold(me, l1, l2, 0) == 0) by {
        match me {
            Metric::Vertical => {
                assert(0 * crate::geometry::abs_int(l2.x - l1.x) == 0) by (nonlinear_arith);
            },
            Metric::Perpendicular => {
                assert(0 * 0 * crate::geometry::chord_len_sq(l1, l2) == 0) by (nonlinear_arith);
            },
        }
    }
    let left = s.subrange(0, sc.0 + 1);
    let right = s.subrange(sc.0, s.len() as int);
    lemma_rdp_endpoints(left, 0, m, Scan::AllInterior);
    lemma_rdp_endpoints(right, 0, m, Scan::AllInterior);
}

/// Whether `p` lies within the tolerance of some chord between two
/// consecutive points of the polyline `t`, under the metric the
/// simplifier applies to that chord (`key <= threshold` is the exact
/// scaled form of `distance <= eps`).
pub open spec fn within_chord_tolerance(t: Seq<Point>, p: Point, m: Metric, eps: int) -> bool {
    exists|j: int|
        0 <= j < t.len() - 1 && #[trigger] dist_key(
            effective_metric(m, t[j], t[j + 1]),
            t[j],
            t[j + 1],
            p,
        ) <= dist_threshold(effective_metric(m, t[j], t[j + 1]), t[j], t[j + 1], eps)
}

/// A point within tolerance of a polyline stays within tolerance of any
/// polyline holding that one as a contiguous run: the run's chords are
/// chords of the longer polyline too.
proof fn lemma_within_tolerance_embed(
    t_part: Seq<Point>,
    t: Seq<Point>,
    off: int,
    p: Point,
    m: Metric,
    eps: int,
)
    requires
        within_chord_tolerance(t_part, p, m, eps),
        0 <= off,
        off + t_part.len() <= t.len(),
        forall|j: int| 0 <= j < t_part.len() ==> t[off + j] == #[trigger] t_part[j],
    ensures
        within_chord_tolerance(t, p, m, eps),
{
    let j = choose|j: int|
        0 <= j < t_part.len() - 1 && #[trigger] dist_key(
            effective_metric(m, t_part[j], t_part[j + 1]),
            t_part[j],
            t_part[j + 1],
            p,
        ) <= dist_threshold(
            effective_metric(m, t_part[j], t_part[j + 1]),
            t_part[j],
            t_part[j + 1],
            eps,
        );
    assert(t[off + j] == t_part[j] && t[off + j + 1] == t_part[j + 1]);
    assert(0 <= off + j < t.len() - 1 && dist_key(
        effective_metric(m, t[off + j], t[off + j + 1]),
        t[off + j],
        t[off + j + 1],
        p,
    ) <= dist_threshold(
        effective_metric(m, t[off + j], t[off + j + 1]),
        t[off + j],
        t[off + j + 1],
        eps,
    ));
}

/// A point whose key against the chord of a two-point polyline is within
/// the threshold is within tolerance of that polyline.
proof fn lemma_within_tolerance_pair(t: Seq<Point>, p: Point, m: Metric, eps: int)
    requires
        t.len() == 2,
        dist_key(effective_metric(m, t[0], t[1]), t[0], t[1], p) <= dist_threshold(
            effective_metric(m, t[0], t[1]),
            t[0],
            t[1],
            eps,
        ),
    ensures
        within_chord_tolerance(t, p, m, eps),
{
    let j: int = 0;
    assert(0 <= j < t.len() - 1 && dist_key(effective_metric(m, t[j], t[j + 1]), t[j], t[j + 1], p)
        <= dist_threshold(effective_metric(m, t[j], t[j + 1]), t[j], t[j + 1], eps));
}

/// The approximation guarantee behind discarding points: with the full
/// interior scan, every input point — dropped or kept — lies within the
/// tolerance of the chord between two consecutive surviving points. A
/// dropped point sits within `eps` of the chord of the two survivors
/// spanning it; a kept point sits on its own chords.
pub proof fn lemma_rdp_within_tolerance(s: Seq<Point>, eps: int, m: Metric)
    requires
        s.len() >= 2,
        eps >= 0,
    ensures
        forall|i: int|
            0 <= i < s.len() ==> within_chord_tolerance(
                rdp_spec(s, eps, m, Scan::AllInterior),
                s[i],
                m,
                eps,
            ),
    decreases s.len(),
{
    let scan = Scan::AllInterior;
    let t = rdp_spec(s, eps, m, scan);
    let l1 = s[0];
    let l2 = s[s.len() - 1];
    let me = effective_metric(m, l1, l2);
    lemma_dist_threshold_nonneg(me, l1, l2, eps);
    lemma_dist_key_endpoints_zero(me, l1, l2);
    if s.len() <= 2 {
        assert forall|i: int| 0 <= i < s.len() implies within_chord_tolerance(t, s[i], m, eps) by {
            assert(t[0] == l1 && t[1] == l2);
            assert(effective_metric(m, t[0], t[1]) == me);
            lemma_within_tolerance_pair(t, s[i], m, eps);
        }
    } else {
        let hi = scan_hi(s.len() as int, scan);
        let sc = scan_from(s, l1, l2, me, 1, hi, 0, 0);
        let thr = dist_threshold(me, l1, l2, eps);
        lemma_scan_from_props(s, l1, l2, me, 1, hi, 0, 0);
        if sc.1 > thr {
            let imax = sc.0;
            let left = s.subrange(0, imax + 1);
            let right = s.subrange(imax, s.len() as int);
            let a = rdp_spec(left, eps, m, scan);
            let b = rdp_spec(right, eps, m, scan);
            lemma_rdp_endpoints(left, eps, m, scan);
            lemma_rdp_endpoints(right, eps, m, scan);
            lemma_rdp_within_tolerance(left, eps, m);
            lemma_rdp_within_tolerance(right, eps, m);
            assert(t == a.drop_last() + b);
            let pos = a.len() - 1;
            // the two halves sit contiguously in `t`, sharing the split point
            assert(t[pos] == b[0] && b[0] == right[0] && right[0] == left.last() && left.last()
                == a.last());
            assert forall|j: int| 0 <= j < a.len() implies t[j] == #[trigger] a[j] by {
                if j < pos {
                    assert(t[j] == a.drop_last()[j]);
                }
            }
            assert forall|j: int| 0 <= j < b.len() implies t[pos + j] == #[trigger] b[j] by {}
            assert forall|i: int| 0 <= i < s.len() implies within_chord_tolerance(
                t,
                s[i],
                m,
                eps,
            ) by {
                if i <= imax {
                    assert(left[i] == s[i]);
                    assert(within_chord_tolerance(a, s[i], m, eps));
                    lemma_within_tolerance_embed(a, t, 0, s[i], m, eps);
                } else {
                    assert(right[i - imax] == s[i]);
                    assert(within_chord_tolerance(b, s[i], m, eps));
                    lemma_within_tolerance_embed(b, t, pos, s[i], m, eps);
                }
            }
        } else {
            // even the farthest interior point is within the tolerance of
            // the one surviving chord
            assert(t == seq![l1, l2]);
            assert forall|i: int| 0 <= i < s.len() implies within_chord_tolerance(
                t,
                s[i],
                m,
                eps,
            ) by {
                assert(t[0] == l1 && t[1] == l2);
                assert(effective_metric(m, t[0], t[1]) == me);
                if 1 <= i < hi {
                    assert(dist_key(me, l1, l2, s[i]) <= sc.1);
                }
                lemma_within_tolerance_pair(t, s[i], m, eps);
            }
        }
    }
}

/// Every point of the simplified polyline is one of the input's points,
/// with multiplicity: the output's multiset of points is contained in the
/// input's. (The output is in fact a subsequence; this is the part of
/// that claim the later laws lean on.)
pub proof fn lemma_rdp_submultiset(s: Seq<Point>, eps: int, m: Metric, scan: Scan)
    requires
        s.len() >= 2,
    ensures
        rdp_spec(s, eps, m, scan).to_multiset().subset_of(s.to_multiset()),
    decreases s.len(),
{
    broadcast use group_multiset_axioms;
    broadcast use group_to_multiset_ensures;

    let t = rdp_spec(s, eps, m, scan);
    if s.len() <= 2 {
    } else {
        let l1 = s[0];
        let l2 = s[s.len() - 1];
        let me = effective_metric(m, l1, l2);
        let hi = scan_hi(s.len() as int, scan);
        let sc = scan_from(s, l1, l2, me, 1, hi, 0, 0);
        if sc.1 > dist_threshold(me, l1, l2, eps) && 1 <= sc.0 < hi {
            let left = s.subrange(0, sc.0 + 1);
            let right = s.subrange(sc.0, s.len() as int);
            let x = s[sc.0];
            lemma_rdp_submultiset(left, eps, m, scan);
            lemma_rdp_submultiset(right, eps, m, scan);
            lemma_rdp_endpoints(left, eps, m, scan);
            lemma_rdp_endpoints(right, eps, m, scan);
            let a = rdp_spec(left, eps, m, scan);
            let b = rdp_spec(right, eps, m, scan);
            assert(t == a.drop_last() + b);
            vstd::seq_lib::lemma_multiset_commutative(a.drop_last(), b);
            assert(a.drop_last().push(x) =~= a);
            assert(a.to_multiset() == a.drop_last().to_multiset().insert(x));
            assert(left + right.drop_first() =~= s);
            vstd::seq_lib::lemma_multiset_commutative(left, right.drop_first());
            assert(right.remove(0) =~= right.drop_first());
            assert(right.drop_first().to_multiset() == right.to_multiset().remove(x));
            assert(right.to_multiset().count(x) >= 1) by {
                assert(right.contains(x));
            }
            assert forall|v: Point| t.to_multiset().count(v) <= s.to_multiset().count(v) by {
                let ind: int = if v == x {
                    1
                } else {
                    0
                };
                assert(a.to_multiset().count(v) == a.drop_last().to_multiset().count(v) + ind);
                assert(right.drop_first().to_multiset().count(v) == right.to_multiset().count(v)
                    - ind);
                assert(t.to_multiset().count(v) == a.drop_last().to_multiset().count(v)
                    + b.to_multiset().count(v));
                assert(s.to_multiset().count(v) == left.to_multiset().count(v)
                    + right.to_multiset().count(v) - ind);
                assert(a.to_multiset().count(v) <= left.to_multiset().count(v));
                assert(b.to_multiset().count(v) <= right.to_multiset().count(v));
            }
        } else {
            assert(t == seq![l1, l2]);
            assert(Seq::<Point>::empty().push(l1).push(l2) =~= t);
            assert(t.to_multiset() == Seq::<Point>::empty().to_multiset().insert(l1).insert(l2));
            assert(Seq::<Point>::empty().to_multiset().len() == 0);
            assert(s.remove(0) =~= s.drop_first());
            assert(s.drop_first().to_multiset() == s.to_multiset().remove(l1));
            assert(s.to_multiset().count(l1) >= 1) by {
                assert(s.contains(l1));
            }
            assert(s.drop_first().to_multiset().count(l2) >= 1) by {
                assert(s.drop_first()[s.len() - 2] == l2);
                assert(s.drop_first().contains(l2));
            }
            assert forall|v: Point| t.to_multiset().count(v) <= s.to_multiset().count(v) by {
                assert(Seq::<Point>::empty().to_multiset().count(v) == 0);
            }
        }
    }
}

/// Whether `t` can be read off `s` left to right: either `t` is done, or
/// `s` is consumed from the front, matching `t`'s front when the two
/// agree and skipping otherwise.
pub open spec fn is_subseq_of(t: Seq<Point>, s: Seq<Point>) -> bool
    decreases s.len(),
{
    if t.len() == 0 {
        true
    } else if s.len() == 0 {
        false
    } else if t[0] == s[0] {
        is_subseq_of(t.drop_first(), s.drop_first())
    } else {
        is_subseq_of(t, s.drop_first())
    }
}

/// Every sequence is a subsequence of itself.
pub proof fn lemma_subseq_refl(s: Seq<Point>)
    ensures
        is_subseq_of(s, s),
    decreases s.len(),
{
    if s.len() == 0 {
    } else {
        lemma_subseq_refl(s.drop_first());
    }
}

/// A subsequence of the tail of `s` is a subsequence of `s`.
proof fn lemma_subseq_widen(t: Seq<Point>, s: Seq<Point>)
    requires
        s.len() >= 1,
        is_subseq_of(t, s.drop_first()),
    ensures
        is_subseq_of(t, s),
    decreases s.len(), 0int,
{
    if t.len() == 0 {
    } else if t[0] == s[0] {
        lemma_subseq_tail(t, s.drop_first());
    } else {
    }
}

/// Dropping the front of a subsequence leaves a subsequence.
proof fn lemma_subseq_tail(t: Seq<Point>, s: Seq<Point>)
    requires
        t.len() >= 1,
        is_subseq_of(t, s),
    ensures
        is_subseq_of(t.drop_first(), s),
    decreases s.len(), 1int,
{
    if t[0] == s[0] {
        lemma_subseq_widen(t.drop_first(), s);
    } else {
        lemma_subseq_tail(t, s.drop_first());
        lemma_subseq_widen(t.drop_first(), s);
    }
}

/// Anything prepended to `s` preserves `t` being a subsequence of it.
proof fn lemma_subseq_prepend(t: Seq<Point>, s1: Seq<Point>, s2: Seq<Point>)
    requires
        is_subseq_of(t, s2),
    ensures
        is_subseq_of(t, s1 + s2),
    decreases s1.len(),
{
    if s1.len() == 0 {
        assert(s1 + s2 =~= s2);
    } else {
        lemma_subseq_prepend(t, s1.drop_first(), s2);
        assert((s1 + s2).drop_first() =~= s1.drop_first() + s2);
        lemma_subseq_widen(t, s1 + s2);
    }
}

/// Subsequences concatenate: reading `t1` off `s1` and `t2` off `s2`
/// reads `t1 + t2` off `s1 + s2`.
proof fn lemma_subseq_concat(t1: Seq<Point>, s1: Seq<Point>, t2: Seq<Point>, s2: Seq<Point>)
    requires
        is_subseq_of(t1, s1),
        is_subseq_of(t2, s2),
    ensures
        is_subseq_of(t1 + t2, s1 + s2),
    decreases s1.len(),
{
    if t1.len() == 0 {
        assert(t1 + t2 =~= t2);
        lemma_subseq_prepend(t2, s1, s2);
    } else {
        assert((s1 + s2).drop_first() =~= s1.drop_first() + s2);
        if t1[0] == s1[0] {
            lemma_subseq_concat(t1.drop_first(), s1.drop_first(), t2, s2);
            assert((t1 + t2).drop_first() =~= t1.drop_first() + t2);
        } else {
            lemma_subseq_concat(t1, s1.drop_first(), t2, s2);
            lemma_subseq_widen(t1 + t2, s1 + s2);
        }
    }
}

/// A one-point sequence is a subsequence of anything containing the point.
proof fn lemma_subseq_single(x: Point, s: Seq<Point>)
    requires
        s.contains(x),
    ensures
        is_subseq_of(seq![x], s),
    decreases s.len(),
{
    if s[0] == x {
        assert(seq![x].drop_first() =~= Seq::<Point>::empty());
        assert(is_subseq_of(Seq::<Point>::empty(), s.drop_first()));
    } else {
        let i = choose|i: int| 0 <= i < s.len() && s[i] == x;
        assert(s.drop_first()[i - 1] == x);
        assert(s.drop_first().contains(x));
        lemma_subseq_single(x, s.drop_first());
    }
}

/// The simplified polyline is a subsequence of its input: surviving
/// points keep their left-to-right order, and nothing new appears.
#[verifier::rlimit(50)]
pub proof fn lemma_rdp_subsequence(s: Seq<Point>, eps: int, m: Metric, scan: Scan)
    requires
        s.len() >= 2,
    ensures
        is_subseq_of(rdp_spec(s, eps, m, scan), s),
    decreases s.len(),
{
    let t = rdp_spec(s, eps, m, scan);
    if s.len() <= 2 {
        lemma_subseq_refl(s);
    } else {
        let l1 = s[0];
        let l2 = s[s.len() - 1];
        let me = effective_metric(m, l1, l2);
        let hi = scan_hi(s.len() as int, scan);
        let sc = scan_from(s, l1, l2, me, 1, hi, 0, 0);
        if sc.1 > dist_threshold(me, l1, l2, eps) && 1 <= sc.0 < hi {
            let left = s.subrange(0, sc.0 + 1);
            let right = s.subrange(sc.0, s.len() as int);
            let x = s[sc.0];
            let a = rdp_spec(left, eps, m, scan);
            let b = rdp_spec(right, eps, m, scan);
            lemma_rdp_subsequence(left, eps, m, scan);
            lemma_rdp_subsequence(right, eps, m, scan);
            lemma_rdp_endpoints(left, eps, m, scan);
            lemma_rdp_endpoints(right, eps, m, scan);
            // the shared split point heads both `b` and `right`, so the
            // matching step there is forced and the two tails line up
            assert(b[0] == right[0]);
            assert(is_subseq_of(b.drop_first(), right.drop_first()));
            lemma_subseq_concat(a, left, b.drop_first(), right.drop_first());
            assert(t =~= a + b.drop_first());
            assert(s =~= left + right.drop_first());
        } else {
            assert(t =~= seq![l1] + seq![l2]);
            assert(s =~= seq![l1] + s.drop_first());
            lemma_subseq_refl(seq![l1]);
            assert(s.drop_first()[s.len() - 2] == l2);
            assert(s.drop_first().contains(l2));
            lemma_subseq_single(l2, s.drop_first());
            lemma_subseq_concat(seq![l1], seq![l1], seq![l2], s.drop_first());
        }
    }
}

/// Simplifying an already simplified polyline changes nothing: with the
/// full interior scan, one pass of the algorithm reaches a fixed point.
pub proof fn lemma_rdp_idempotent(s: Seq<Point>, eps: int, m: Metric)
    requires
        s.len() >= 2,
        eps >= 0,
    ensures
        rdp_spec(rdp_spec(s, eps, m, Scan::AllInterior), eps, m, Scan::AllInterior) == rdp_spec(
            s,
            eps,
            m,
            Scan::AllInterior,
        ),
    decreases s.len(),
{
    broadcast use group_multiset_axioms;
    broadcast use group_to_multiset_ensures;

    let scan = Scan::AllInterior;
    let t = rdp_spec(s, eps, m, scan);
    if s.len() <= 2 {
    } else {
        let l1 = s[0];
        let l2 = s[s.len() - 1];
        let me = effective_metric(m, l1, l2);
        let hi = scan_hi(s.len() as int, scan);
        let sc = scan_from(s, l1, l2, me, 1, hi, 0, 0);
        let thr = dist_threshold(me, l1, l2, eps);
        lemma_dist_threshold_nonneg(me, l1, l2, eps);
        lemma_scan_from_props(s, l1, l2, me, 1, hi, 0, 0);
        lemma_dist_key_endpoints_zero(me, l1, l2);
        if sc.1 > thr {
            let imax = sc.0;
            let kmax = sc.1;
            let left = s.subrange(0, imax + 1);
            let right = s.subrange(imax, s.len() as int);
            let x = s[imax];
            let a = rdp_spec(left, eps, m, scan);
            let b = rdp_spec(right, eps, m, scan);
            lemma_rdp_endpoints(left, eps, m, scan);
            lemma_rdp_endpoints(right, eps, m, scan);
            lemma_rdp_submultiset(left, eps, m, scan);
            lemma_rdp_submultiset(right, eps, m, scan);
            assert(t == a.drop_last() + b);
            let pos = a.len() - 1;
            assert(t.len() == pos + b.len());
            assert(t[0] == a[0] && a[0] == left[0] && left[0] == l1);
            assert(t[t.len() - 1] == b[b.len() - 1] && b[b.len() - 1] == right[right.len() - 1]
                && right[right.len() - 1] == l2);
            assert(t[pos] == b[0] && b[0] == right[0] && right[0] == x);
            assert(dist_key(me, l1, l2, x) == kmax);
            // the value at the split occurs only once in the left half,
            // namely at its end, so it cannot survive into `a.drop_last()`
            assert(left.last() == x);
            assert(left.drop_last().push(x) =~= left);
            assert(left.to_multiset() == left.drop_last().to_multiset().insert(x));
            assert(!left.drop_last().contains(x)) by {
                if left.drop_last().contains(x) {
                    let li = choose|li: int|
                        0 <= li < left.drop_last().len() && left.drop_last()[li] == x;
                    assert(s[li] == x);
                    assert(dist_key(me, l1, l2, s[li]) == kmax);
                }
            }
            assert(left.drop_last().to_multiset().count(x) == 0);
            assert(left.to_multiset().count(x) == 1);
            assert(a.drop_last().push(a.last()) =~= a);
            assert(a.last() == left.last());
            assert(a.to_multiset() == a.drop_last().to_multiset().insert(x));
            assert(a.to_multiset().count(x) <= 1);
            assert(a.drop_last().to_multiset().count(x) == 0);
            // every point of `t` left of the split is strictly nearer the
            // chord than the split point
            assert forall|j: int| 1 <= j < pos implies #[trigger] dist_key(me, l1, l2, t[j])
                < kmax by {
                let v = t[j];
                assert(v == a.drop_last()[j]);
                assert(a.drop_last().contains(v));
                assert(v != x);
                assert(a.drop_last().to_multiset().count(v) >= 1);
                assert(a.to_multiset().count(v) >= 1);
                assert(left.to_multiset().count(v) >= 1);
                assert(left.contains(v));
                let li = choose|li: int| 0 <= li < left.len() && left[li] == v;
                assert(v == s[li]);
                assert(li < imax);
            }
            // and every point of `t` right of the split is no farther
            assert forall|j: int| pos < j < t.len() implies #[trigger] dist_key(me, l1, l2, t[j])
                <= kmax by {
                let v = t[j];
                assert(v == b[j - pos]);
                assert(b.contains(v));
                assert(b.to_multiset().count(v) >= 1);
                assert(right.to_multiset().count(v) >= 1);
                assert(right.contains(v));
                let ri = choose|ri: int| 0 <= ri < right.len() && right[ri] == v;
                assert(v == s[imax + ri]);
            }
            // so the second pass scans to the same split, with the same key
            let hi_t = scan_hi(t.len() as int, scan);
            lemma_scan_from_pinned(t, l1, l2, me, 1, hi_t, 0, 0, pos, kmax);
            assert(effective_metric(m, t[0], t[t.len() - 1]) == me);
            assert(t.subrange(0, pos + 1) =~= a);
            assert(t.subrange(pos, t.len() as int) =~= b);
            lemma_rdp_idempotent(left, eps, m);
            lemma_rdp_idempotent(right, eps, m);
            assert(rdp_spec(t, eps, m, scan) == rdp_spec(a, eps, m, scan).drop_last() + rdp_spec(
                b,
                eps,
                m,
                scan,
            ));
        } else {
            assert(t.len() == 2);
        }
    }
}

} // verus!
