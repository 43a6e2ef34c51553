//! The sampler: evenly spaced points of a function over an interval.
//!
//! `sample(start, end, steps, f)` produces exactly `steps` points whose
//! x-coordinates run from `start` to `end` in equal steps and whose
//! y-coordinates come from the supplied function, so any curve can be
//! sampled through the same routine. In fixed-point arithmetic the step is
//! the exact rational `(end - start) / (steps - 1)`, realised as
//! `x_i = start + (i * (end - start)) / (steps - 1)` with the product taken
//! before the division; the first and last x are therefore exactly `start`
//! and `end`.

use vstd::arithmetic::div_mod::lemma_div_is_ordered;
use vstd::arithmetic::div_mod::lemma_div_multiples_vanish;
use vstd::arithmetic::div_mod::lemma_div_pos_is_pos;
use vstd::arithmetic::mul::lemma_mul_inequality;
use vstd::arithmetic::mul::lemma_mul_is_commutative;
use vstd::arithmetic::mul::lemma_mul_nonnegative;
use vstd::prelude::*;

use crate::geometry::COORD_BOUND;
use crate::geometry::Point;
use crate::CurveError;

verus! {

/// Integer division rounding toward zero, for a positive divisor: the
/// rounding used by machine division on signed values.
pub open spec fn div_trunc(a: int, b: int) -> int {
    if a >= 0 {
        a / b
    } else {
        -((-a) / b)
    }
}

/// The x-coordinate of the `i`-th of `steps` evenly spaced samples over
/// `[start, end]`: `start + (i * (end - start)) / (steps - 1)`, the product
/// taken before the truncating division.
pub open spec fn sample_x(start: int, end: int, steps: int, i: int) -> int {
    start + div_trunc(i * (end - start), steps - 1)
}

/// Where the `k`-th of `n` equal steps across a span of `d` lands: between
/// `0` and `d` whatever the signs, exactly `0` at `k == 0` and exactly `d`
/// at `k == n`.
pub proof fn lemma_div_trunc_step(d: int, n: int, k: int)
    requires
        n >= 1,
        0 <= k <= n,
    ensures
        d >= 0 ==> 0 <= div_trunc(k * d, n) <= d,
        d < 0 ==> d <= div_trunc(k * d, n) <= 0,
        k == 0 ==> div_trunc(k * d, n) == 0,
        k == n ==> div_trunc(k * d, n) == d,
{
    if d >= 0 {
        lemma_mul_nonnegative(k, d);
        lemma_mul_inequality(k, n, d);
        lemma_div_pos_is_pos(k * d, n);
        lemma_div_is_ordered(k * d, n * d, n);
        lemma_div_multiples_vanish(d, n);
        lemma_mul_is_commutative(n, d);
        assert(div_trunc(k * d, n) <= d);
    } else {
        let e = -d;
        assert(k * e == -(k * d)) by (nonlinear_arith)
            requires
                e == -d,
        ;
        lemma_mul_nonnegative(k, e);
        lemma_mul_inequality(k, n, e);
        lemma_div_pos_is_pos(k * e, n);
        lemma_div_is_ordered(k * e, n * e, n);
        lemma_div_multiples_vanish(e, n);
        lemma_mul_is_commutative(n, e);
        if k * d >= 0 {
            assert(k * d == 0) by (nonlinear_arith)
                requires
                    k * d >= 0,
                    k * e >= 0,
                    k * e == -(k * d),
            ;
            vstd::arithmetic::div_mod::lemma_div_of0(n);
            assert(k != n) by (nonlinear_arith)
                requires
                    k * d == 0,
                    d < 0,
                    n >= 1,
            ;
        }
    }
}

/// Evaluates `start + div_trunc(k * (end - start), den)` exactly: the
/// `k`-th of `den` equal steps from `start` toward `end`. The result stays
/// between `start` and `end`, so it fits both `i64` and the coordinate
/// bound.
pub fn interp_x(start: i64, end: i64, den: u32, k: u32) -> (x: i64)
    requires
        -COORD_BOUND <= start <= COORD_BOUND,
        -COORD_BOUND <= end <= COORD_BOUND,
        den >= 1,
        k <= den,
    ensures
        x as int == start + div_trunc(k * (end - start), den as int),
        -COORD_BOUND <= x <= COORD_BOUND,
        start <= end ==> start <= x <= end,
        end <= start ==> end <= x <= start,
        k == 0 ==> x == start,
        k == den ==> x == end,
{
    proof {
        lemma_div_trunc_step(end - start, den as int, k as int);
    }
    let d: i128 = end as i128 - start as i128;
    let mag: u128 = if d >= 0 {
        d as u128
    } else {
        (-d) as u128
    };
    proof {
        assert(0 <= (k as int) * (mag as int) <= 0x8000000000000000) by (nonlinear_arith)
            requires
                0 <= k as int <= 0x100000000,
                0 <= mag as int <= 0x80000000,
        ;
    }
    let num: u128 = (k as u128) * mag;
    let qu: u128 = num / (den as u128);
    proof {
        vstd::arithmetic::div_mod::lemma_div_nonincreasing(num as int, den as int);
        if d >= 0 {
            assert((k as int) * (d as int) == num as int) by (nonlinear_arith)
                requires
                    mag as int == d as int,
                    num == (k as int) * (mag as int),
            ;
        } else {
            assert((k as int) * (d as int) == -(num as int)) by (nonlinear_arith)
                requires
                    mag as int == -(d as int),
                    num == (k as int) * (mag as int),
            ;
        }
    }
    let q: i128 = if d >= 0 {
        qu as i128
    } else {
        -(qu as i128)
    };
    proof {
        if d < 0 && num == 0 {
            vstd::arithmetic::div_mod::lemma_div_of0(den as int);
        }
        assert(q as int == div_trunc(k * (end - start), den as int));
    }
    (start as i128 + q) as i64
}

/// Samples `f` at `steps` evenly spaced x-coordinates across
/// `[start, end]`.
///
/// Fails exactly when `steps < 2` (there is no spacing without at least
/// two points). Otherwise the result holds exactly `steps` points: the
/// `i`-th has `x == sample_x(start, end, steps, i)` — so the first x is
/// exactly `start` and the last exactly `end` — and a y that `f` returned
/// for that x.
pub fn sample<F: Fn(i64) -> i64>(start: i64, end: i64, steps: u32, f: &F) -> (r: Result<
    Vec<Point>,
    CurveError,
>)
    requires
        -COORD_BOUND <= start <= COORD_BOUND,
        -COORD_BOUND <= end <= COORD_BOUND,
        forall|x: i64| #[trigger] call_requires(*f, (x,)),
    ensures
        steps < 2 ==> r == Err::<Vec<Point>, CurveError>(CurveError::InvalidArgument),
        steps >= 2 ==> (r matches Ok(v) && {
            &&& v@.len() == steps
            &&& forall|i: int|
                0 <= i < v@.len() ==> (#[trigger] v@[i]).x as int == sample_x(
                    start as int,
                    end as int,
                    steps as int,
                    i,
                )
            &&& forall|i: int| 0 <= i < v@.len() ==> call_ensures(*f, ((#[trigger] v@[i]).x,), v@[i].y)
            &&& v@[0].x == start
            &&& v@[v@.len() - 1].x == end
        }),
{
    if steps < 2 {
        return Err(CurveError::InvalidArgument);
    }
    let den: u32 = steps - 1;
    let mut pts: Vec<Point> = Vec::new();
    let mut i: u32 = 0;
    while i < steps
        invariant
            steps >= 2,
            den == steps - 1,
            i <= steps,
            pts@.len() == i as int,
            -COORD_BOUND <= start <= COORD_BOUND,
            -COORD_BOUND <= end <= COORD_BOUND,
            forall|x: i64| #[trigger] call_requires(*f, (x,)),
            forall|j: int|
                0 <= j < i as int ==> (#[trigger] pts@[j]).x as int == sample_x(
                    start as int,
                    end as int,
                    steps as int,
                    j,
                ),
            forall|j: int|
                0 <= j < i as int ==> call_ensures(*f, ((#[trigger] pts@[j]).x,), pts@[j].y),
        decreases steps - i,
    {
        let x = interp_x(start, end, den, i);
        let y = f(x);
        pts.push(Point { x, y });
        i = i + 1;
    }
    proof {
        lemma_div_trunc_step(end - start, den as int, 0);
        lemma_div_trunc_step(end - start, den as int, den as int);
    }
    Ok(pts)
}

} // verus!
