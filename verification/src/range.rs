//! A lazy cursor over evenly spaced x-coordinates.
//!
//! `Range` walks the positions `start + k * (end - start) / (steps - 1)`
//! for `k = 0, 1, ..., steps - 1` — the same positions the sampler
//! produces — one call at a time: the first value is exactly `start`, the
//! last exactly `end`, and after `steps` values the cursor is exhausted.
//! The sampler does not need it (its contract is a stateless formula); the
//! cursor is for callers that want one value at a time.

use vstd::prelude::*;

use crate::geometry::COORD_BOUND;
use crate::sample::interp_x;
use crate::sample::sample_x;

verus! {

/// A cursor over the `steps` evenly spaced positions from `start` to
/// `end`.
#[derive(Clone, Copy, Debug, PartialEq, Eq, Structural)]
pub struct Range {
    pub start: i64,
    pub end: i64,
    pub steps: u32,
    pub cursor: u32,
}

/// The position of the cursor's `k`-th value: the `k`-th of `steps`
/// evenly spaced samples over `[start, end]`.
pub open spec fn range_x(r: Range, k: int) -> int {
    sample_x(r.start as int, r.end as int, r.steps as int, k)
}

/// The coordinates lie within `COORD_BOUND`, there are at least two
/// steps (the spacing divides by `steps - 1`), and the cursor has not run
/// past the step count.
pub open spec fn range_wf(r: Range) -> bool {
    &&& -COORD_BOUND <= r.start <= COORD_BOUND
    &&& -COORD_BOUND <= r.end <= COORD_BOUND
    &&& r.steps >= 2
    &&& r.cursor <= r.steps
}

impl Range {
    /// A fresh cursor at the start of the interval.
    pub fn new(start: i64, end: i64, steps: u32) -> (r: Range)
        requires
            -COORD_BOUND <= start <= COORD_BOUND,
            -COORD_BOUND <= end <= COORD_BOUND,
            steps >= 2,
        ensures
            r == (Range { start, end, steps, cursor: 0u32 }),
            range_wf(r),
    {
        Range { start, end, steps, cursor: 0 }
    }

    /// Yields the cursor's next position — `range_x` at the current
    /// index, so `start` first and `end` as the `steps`-th value — then
    /// `None` once all `steps` positions are out.
    pub fn next(&mut self) -> (o: Option<i64>)
        requires
            range_wf(*old(self)),
        ensures
            range_wf(*final(self)),
            ({
                let k = old(self).cursor as int;
                if k < old(self).steps {
                    &&& o matches Some(x) && x as int == range_x(*old(self), k)
                    &&& *final(self) == (Range { cursor: (k + 1) as u32, ..*old(self) })
                } else {
                    &&& o is None
                    &&& *final(self) == *old(self)
                }
            }),
    {
        if self.cursor >= self.steps {
            return None;
        }
        let x = interp_x(self.start, self.end, self.steps - 1, self.cursor);
        self.cursor = self.cursor + 1;
        Some(x)
    }
}

} // verus!
