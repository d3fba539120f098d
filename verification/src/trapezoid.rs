//! Trapezoids and the rule that decides which spans are filled.

use crate::geometry::{LineSegment, Rational};
use vstd::prelude::*;

verus! {

/// How a winding count decides whether a span is inside the shape.
#[derive(Clone, Copy, Debug, PartialEq, Eq, Structural)]
pub enum FillRule {
    /// Inside where the winding count is not zero.
    NonZero,
    /// Inside where the winding count is odd.
    EvenOdd,
}

impl FillRule {
    /// A span with the winding count `sum` is filled.
    pub open spec fn passes(self, sum: int) -> bool {
        match self {
            FillRule::NonZero => sum != 0,
            FillRule::EvenOdd => sum % 2 != 0,
        }
    }

    /// Decides `passes`.
    pub fn admits(&self, sum: i128) -> (r: bool)
        requires
            sum > i128::MIN,
        ensures
            r == self.passes(sum as int),
    {
        match self {
            FillRule::NonZero => sum != 0,
            FillRule::EvenOdd => {
                let size: i128 = if sum < 0 {
                    -sum
                } else {
                    sum
                };
                size % 2 != 0
            },
        }
    }
}

/// A quadrilateral with a horizontal top and bottom, bounded on the left and
/// on the right by the lines through two segments. Both segments are listed
/// from their upper to their lower endpoint.
#[derive(Clone, Copy, Debug, PartialEq, Eq, Structural)]
pub struct Trapezoid {
    pub left: LineSegment,
    pub right: LineSegment,
    pub top: Rational,
    pub bottom: Rational,
}

impl Trapezoid {
    /// The bottom lies strictly below the top.
    pub open spec fn has_height(self) -> bool {
        self.top.lt(self.bottom)
    }

    /// The trapezoid between two segments over a range of heights.
    pub open spec fn between(
        left: LineSegment,
        right: LineSegment,
        top: Rational,
        bottom: Rational,
    ) -> Trapezoid {
        Trapezoid { left: left.downward(), right: right.downward(), top, bottom }
    }

    /// The trapezoid between two segments over a range of heights.
    pub fn new(left: &LineSegment, right: &LineSegment, top: Rational, bottom: Rational) -> (t:
        Trapezoid)
        ensures
            t == Trapezoid::between(*left, *right, top, bottom),
    {
        Trapezoid {
            left: LineSegment { point1: left.min_y_point(), point2: left.max_y_point() },
            right: LineSegment { point1: right.min_y_point(), point2: right.max_y_point() },
            top,
            bottom,
        }
    }
}

/// Why a sweep produced no trapezoids.
#[derive(Clone, Copy, Debug, PartialEq, Eq, Structural)]
pub enum SweepError {
    /// Edges are still crossing the sweep line. A sweep that is ended before
    /// its last event reports this; a sweep that has handled every event has
    /// no edge left on the line.
    OpenContour,
}

} // verus!
