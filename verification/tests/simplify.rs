use rdp_core::geometry::{distance_key, distance_threshold, Metric, Point};
use rdp_core::rdp::{rdp_alg, simplify, simplify_with, Scan};
use rdp_core::sample::sample;
use rdp_core::CurveError;

/// One fixed-point unit is a millionth: 1_000_000 units stand for 1.0.
const SCALE: i64 = 1_000_000;

fn pts(coords: &[(i64, i64)]) -> Vec<Point> {
    coords.iter().map(|&(x, y)| Point::new(x, y)).collect()
}

/// A zigzag whose interior points sit at varying heights over a flat chord.
fn zigzag() -> Vec<Point> {
    pts(&[(0, 0), (1, 3), (2, 0), (3, 4), (4, 0), (5, 2), (6, 0)])
}

#[test]
fn simplify_rejects_fewer_than_two_points() {
    assert_eq!(simplify(&vec![], 5), Err(CurveError::InsufficientPoints));
    let one = pts(&[(3, 3)]);
    assert_eq!(simplify(&one, 5), Err(CurveError::InsufficientPoints));
    assert_eq!(rdp_alg(&one, 5), Err(CurveError::InsufficientPoints));
    assert_eq!(
        simplify_with(&vec![], 0, Metric::Perpendicular, Scan::AllInterior),
        Err(CurveError::InsufficientPoints)
    );
}

#[test]
fn simplify_keeps_two_points_unchanged() {
    let input = pts(&[(5, 5), (9, -3)]);
    assert_eq!(simplify(&input, 100).unwrap(), input);
    assert_eq!(rdp_alg(&input, 100).unwrap(), input);
}

#[test]
fn simplify_retains_endpoints() {
    for eps in [0, 1, 2, 3, 4, 100] {
        let out = simplify(&zigzag(), eps).unwrap();
        assert_eq!(out.first(), zigzag().first());
        assert_eq!(out.last(), zigzag().last());
    }
}

#[test]
fn simplify_zero_epsilon_keeps_every_point_off_the_chords() {
    // no three consecutive chords ever see a collinear interior point here,
    // so a zero tolerance keeps everything
    let out = simplify(&zigzag(), 0).unwrap();
    assert_eq!(out, zigzag());
    // and a single spike survives
    let spike = pts(&[(0, 0), (1, 5), (2, 0)]);
    assert_eq!(simplify(&spike, 0).unwrap(), spike);
}

#[test]
fn simplify_collinear_collapses_to_two_points() {
    // ten points on the line y = 2x collapse regardless of length
    let line: Vec<Point> = (0..10).map(|i| Point::new(i, 2 * i)).collect();
    let out = simplify(&line, 0).unwrap();
    assert_eq!(out, pts(&[(0, 0), (9, 18)]));
}

#[test]
fn simplify_exact_output_at_mid_tolerance() {
    // at eps = 3 only the tallest interior point survives
    let out = simplify(&zigzag(), 3).unwrap();
    assert_eq!(out, pts(&[(0, 0), (3, 4), (6, 0)]));
    // at eps = 4 even that one is within tolerance
    let out = simplify(&zigzag(), 4).unwrap();
    assert_eq!(out, pts(&[(0, 0), (6, 0)]));
}

#[test]
fn simplify_length_never_grows_with_epsilon() {
    let input = zigzag();
    let mut last_len = input.len();
    for eps in 0..8 {
        let len = simplify(&input, eps).unwrap().len();
        assert!(len <= last_len);
        last_len = len;
    }
}

#[test]
fn simplify_twice_is_simplify_once() {
    for eps in [0, 1, 2, 3, 4] {
        let once = simplify(&zigzag(), eps).unwrap();
        let twice = simplify(&once, eps).unwrap();
        assert_eq!(twice, once);
    }
}

#[test]
fn truncated_scan_misses_the_last_interior_point() {
    // the far-off point sits just before the last point, where only the
    // full scan looks: the truncated scan collapses the whole segment
    let input = pts(&[(0, 0), (1, 0), (2, 5), (3, 0)]);
    let full = simplify(&input, 1).unwrap();
    assert_eq!(full, input);
    let truncated = rdp_alg(&input, 1).unwrap();
    assert_eq!(truncated, pts(&[(0, 0), (3, 0)]));
}

#[test]
fn truncated_scan_is_not_idempotent() {
    // the truncated scan leaves a far-off point just before the end of a
    // collapsed half; a second pass then never examines it and drops it,
    // while the full scan reaches a fixed point in one pass
    let input = pts(&[(0, 0), (2, 5), (10, 0), (11, 0)]);
    let once = rdp_alg(&input, 1).unwrap();
    assert_eq!(once, pts(&[(0, 0), (2, 5), (11, 0)]));
    let twice = rdp_alg(&once, 1).unwrap();
    assert_eq!(twice, pts(&[(0, 0), (11, 0)]));
    assert_eq!(simplify(&once, 1).unwrap(), once);
}

#[test]
fn vertical_metric_falls_back_on_vertical_chord() {
    // the chord is vertical, so the vertical metric silently measures
    // perpendicular distance instead of dividing by zero
    let near = pts(&[(0, 0), (1, 1), (0, 2)]);
    assert_eq!(simplify(&near, 1).unwrap(), pts(&[(0, 0), (0, 2)]));
    let far = pts(&[(0, 0), (5, 1), (0, 2)]);
    assert_eq!(simplify(&far, 1).unwrap(), far);
}

#[test]
fn metrics_disagree_on_steep_chords() {
    // distance from (0,4) to the chord (0,0)-(3,4): vertically 4, but
    // perpendicularly only 12/5; at eps = 3 the metrics decide differently
    let input = pts(&[(0, 0), (0, 4), (3, 4)]);
    let vertical = simplify_with(&input, 3, Metric::Vertical, Scan::AllInterior).unwrap();
    assert_eq!(vertical, input);
    let perp = simplify_with(&input, 3, Metric::Perpendicular, Scan::AllInterior).unwrap();
    assert_eq!(perp, pts(&[(0, 0), (3, 4)]));
}

#[test]
fn distance_key_and_threshold_are_exact() {
    let l1 = Point::new(0, 0);
    let l2 = Point::new(4, 0);
    let p = Point::new(2, 3);
    // cross = 4 * 3 - 2 * 0 = 12
    assert_eq!(distance_key(Metric::Vertical, &l1, &l2, &p), 12);
    assert_eq!(distance_key(Metric::Perpendicular, &l1, &l2, &p), 144);
    assert_eq!(distance_threshold(Metric::Vertical, &l1, &l2, 2), 8);
    assert_eq!(distance_threshold(Metric::Perpendicular, &l1, &l2, 2), 64);
}

/// The sine of `2 * pi * x`, in fixed-point units, rounded to the nearest
/// unit.
fn sin_2pi(x: i64) -> i64 {
    let t = x as f64 / SCALE as f64;
    ((t * 2.0 * std::f64::consts::PI).sin() * SCALE as f64).round() as i64
}

/// Whether `p` lies within `eps` vertical distance of some chord between
/// consecutive points of `out`: `|cross| <= eps * |dx|` is the exact
/// scaled comparison.
fn within_vertical_tolerance(out: &[Point], p: &Point, eps: i64) -> bool {
    out.windows(2).any(|w| {
        let dx = (w[1].x - w[0].x) as i128;
        let dy = (w[1].y - w[0].y) as i128;
        let cross = dx * ((p.y - w[0].y) as i128) - ((p.x - w[0].x) as i128) * dy;
        cross.abs() <= (eps as i128) * dx.abs()
    })
}

#[test]
fn simplify_reduces_a_dense_sine_period() {
    // a full sine period in 300 samples, simplified at a 0.05 tolerance,
    // must come out far smaller yet keep its endpoints and stay a
    // subsequence of the input
    let dense = sample(0, 2 * SCALE, 300, &sin_2pi).unwrap();
    assert_eq!(dense.len(), 300);
    let out = simplify(&dense, SCALE / 20).unwrap();
    assert!(out.len() >= 2);
    assert!(out.len() < 100, "kept {} of 300 points", out.len());
    assert_eq!(out.first(), dense.first());
    assert_eq!(out.last(), dense.last());
    let mut at: usize = 0;
    for p in &out {
        while at < dense.len() && dense[at] != *p {
            at += 1;
        }
        assert!(at < dense.len(), "output point not found in input order");
        at += 1;
    }
    // every sample, dropped or kept, stays within the tolerance of the
    // chord between the surviving neighbours that span it
    for p in &dense {
        assert!(within_vertical_tolerance(&out, p, SCALE / 20));
    }
    // and a second pass changes nothing
    assert_eq!(simplify(&out, SCALE / 20).unwrap(), out);
}
