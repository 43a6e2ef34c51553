use rdp_core::geometry::Point;
use rdp_core::range::Range;
use rdp_core::sample::sample;
use rdp_core::CurveError;

/// One fixed-point unit is a millionth: 1_000_000 units stand for 1.0.
const SCALE: i64 = 1_000_000;

/// The sine of `2 * pi * x`, in fixed-point units, rounded to the nearest
/// unit.
fn sin_2pi(x: i64) -> i64 {
    let t = x as f64 / SCALE as f64;
    ((t * 2.0 * std::f64::consts::PI).sin() * SCALE as f64).round() as i64
}

fn xs(points: &[Point]) -> Vec<i64> {
    points.iter().map(|p| p.x).collect()
}

#[test]
fn sample_count_is_steps() {
    let f = |x: i64| x;
    for steps in [2u32, 3, 5, 10, 300] {
        let pts = sample(0, SCALE, steps, &f).unwrap();
        assert_eq!(pts.len(), steps as usize);
    }
}

#[test]
fn sample_endpoints_are_exact() {
    let f = |x: i64| x;
    let pts = sample(123, 999_999, 7, &f).unwrap();
    assert_eq!(pts.first().unwrap().x, 123);
    assert_eq!(pts.last().unwrap().x, 999_999);
    // a reversed interval is sampled right to left, endpoints still exact
    let pts = sample(SCALE, 0, 4, &f).unwrap();
    assert_eq!(pts.first().unwrap().x, SCALE);
    assert_eq!(pts.last().unwrap().x, 0);
}

#[test]
fn sample_rejects_fewer_than_two_steps() {
    let f = |x: i64| x;
    assert_eq!(sample(0, SCALE, 0, &f), Err(CurveError::InvalidArgument));
    assert_eq!(sample(0, SCALE, 1, &f), Err(CurveError::InvalidArgument));
}

#[test]
fn sample_quarters_of_sine_period() {
    // sample(0.0, 1.0, 5) must land on x = 0, 0.25, 0.5, 0.75, 1.0 and
    // y = sin(2 pi x) there: 0, 1, 0, -1, 0.
    let pts = sample(0, SCALE, 5, &sin_2pi).unwrap();
    assert_eq!(xs(&pts), vec![0, 250_000, 500_000, 750_000, SCALE]);
    let ys: Vec<i64> = pts.iter().map(|p| p.y).collect();
    assert_eq!(ys, vec![0, SCALE, 0, -SCALE, 0]);
}

#[test]
fn sample_spacing_is_even_with_truncation() {
    let f = |x: i64| x;
    // a span of 10 in 3 steps: 0, 3, 6, then exactly 10 at the end
    let pts = sample(0, 10, 4, &f).unwrap();
    assert_eq!(xs(&pts), vec![0, 3, 6, 10]);
    // descending: a span of -800 in 4 steps
    let pts = sample(900, 100, 5, &f).unwrap();
    assert_eq!(xs(&pts), vec![900, 700, 500, 300, 100]);
}

#[test]
fn sample_applies_the_function_to_each_x() {
    let f = |x: i64| 3 * x + 7;
    let pts = sample(0, 100, 5, &f).unwrap();
    for p in &pts {
        assert_eq!(p.y, 3 * p.x + 7);
    }
}

fn collect_range(mut r: Range) -> Vec<i64> {
    let mut got = Vec::new();
    while let Some(x) = r.next() {
        got.push(x);
    }
    assert_eq!(r.next(), None);
    got
}

#[test]
fn range_walks_from_start_to_end() {
    // the step is 12 / (4 - 1) = 4; the fourth value is exactly the end
    assert_eq!(collect_range(Range::new(0, 12, 4)), vec![0, 4, 8, 12]);
}

#[test]
fn range_truncates_uneven_steps() {
    // a span of 7 in 2 steps lands at 0, 3, and exactly 7 at the end
    assert_eq!(collect_range(Range::new(0, 7, 3)), vec![0, 3, 7]);
}

#[test]
fn range_handles_flat_and_reversed_intervals() {
    assert_eq!(collect_range(Range::new(5, 5, 3)), vec![5, 5, 5]);
    assert_eq!(collect_range(Range::new(10, 0, 4)), vec![10, 7, 4, 0]);
}

#[test]
fn range_agrees_with_the_sampler() {
    let f = |x: i64| x;
    for (start, end, steps) in [(0, SCALE, 5), (123, 999_999, 7), (900, 100, 5)] {
        let sampled: Vec<i64> = sample(start, end, steps, &f)
            .unwrap()
            .iter()
            .map(|p| p.x)
            .collect();
        assert_eq!(collect_range(Range::new(start, end, steps)), sampled);
    }
}

#[test]
fn point_new_and_as_arr() {
    let p = Point::new(3, -4);
    assert_eq!(p.x, 3);
    assert_eq!(p.y, -4);
    assert_eq!(p.as_arr(), [3, -4]);
}
