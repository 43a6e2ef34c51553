//! Sampling and polyline simplification on fixed-point coordinates.
//!
//! The crate has two components. The sampler turns a real-valued function of
//! one variable into an evenly spaced polyline over an interval. The
//! simplifier reduces a polyline to a visually equivalent subsequence with the
//! Ramer-Douglas-Peucker algorithm, measuring deviation from a chord either
//! vertically or perpendicularly.
//!
//! Coordinates are `i64` values read as fixed-point numbers: the caller picks
//! a scale (say, a million units to one) and every x, y and epsilon is given
//! in those units. All distance comparisons are carried out exactly on scaled
//! integers, so no rounding enters any decision the algorithms make.

use vstd::prelude::*;

pub mod geometry;
pub mod laws;
pub mod range;
pub mod rdp;
pub mod sample;

verus! {

/// An error surfaced by the sampler or the simplifier.
#[derive(Clone, Copy, Debug, PartialEq, Eq, Structural)]
pub enum CurveError {
    /// The sampler was asked for fewer than two points.
    InvalidArgument,
    /// The simplifier was given fewer than two points.
    InsufficientPoints,
}

} // verus!
