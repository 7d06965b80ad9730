//! The part of a line that faces another one.
use crate::double::Double;
use crate::geometry::{Coord, Line, Rect};
use std::ops::Range;
use vstd::prelude::*;

verus! {

/// The horizontal extent of a rectangle.
pub fn x_range(rect: &Rect) -> (r: Range<Double>)
    ensures
        r == (Range { start: rect.min.x, end: rect.max.x }),
{
    Range { start: rect.min.x, end: rect.max.x }
}

/// The vertical extent of a rectangle.
pub fn y_range(rect: &Rect) -> (r: Range<Double>)
    ensures
        r == (Range { start: rect.min.y, end: rect.max.y }),
{
    Range { start: rect.min.y, end: rect.max.y }
}

/// The common part of two ranges; none where one of them ends before the other starts.
pub open spec fn common(r1: Range<Double>, r2: Range<Double>) -> Option<Range<Double>> {
    if r1.end.below(r2.start) || r2.end.below(r1.start) {
        None
    } else {
        Some(Range { start: r1.start.larger(r2.start), end: r1.end.smaller(r2.end) })
    }
}

/// The common part of two ranges, if they touch.
pub fn overlap_range(r1: Range<Double>, r2: Range<Double>) -> (r: Option<Range<Double>>)
    ensures
        r == common(r1, r2),
{
    if r1.end.lt(r2.start) || r2.end.lt(r1.start) {
        None
    } else {
        Some(Range { start: r1.start.max(r2.start), end: r1.end.min(r2.end) })
    }
}

/// Where a line with slope `slope` through the start of `line` crosses the vertical axis.
pub open spec fn intercept(line: Line, slope: Double) -> Double {
    line.start.y.minus(slope.times(line.start.x))
}

/// The point above `x` on the line through the start of `line`.
pub open spec fn point_at_x(x: Double, line: Line, slope: Double) -> Coord {
    Coord { x, y: slope.times(x).plus(intercept(line, slope)) }
}

/// The point at height `y` on the line through the start of `line`; straight above or below that
/// start where the slope is not finite.
pub open spec fn point_at_y(y: Double, line: Line, slope: Double) -> Coord {
    if slope.infinite() || slope.nan() {
        Coord { x: line.start.x, y }
    } else {
        Coord { x: y.minus(intercept(line, slope)).over(slope), y }
    }
}

/// The ends of the part of `x` over the range `x_overlap`.
///
/// When the horizontal range is known but the vertical range is not, the heights of both ends are
/// those of the line.
pub fn solve_no_y_overlap(x_overlap: Range<Double>, x: &Line, slope: &Double) -> (ends: (
    Coord,
    Coord,
))
    ensures
        ends.0 == point_at_x(x_overlap.start, *x, *slope),
        ends.1 == point_at_x(x_overlap.end, *x, *slope),
{
    let known_x = x.start.x;
    let known_y = x.start.y;
    let b = known_y.sub(slope.mul(known_x));
    let y1 = slope.mul(x_overlap.start).add(b);
    let y2 = slope.mul(x_overlap.end).add(b);
    (Coord { x: x_overlap.start, y: y1 }, Coord { x: x_overlap.end, y: y2 })
}

/// The ends of the part of `x` at the heights `y_overlap`.
pub fn solve_no_x_overlap(y_overlap: Range<Double>, x: &Line, slope: &Double) -> (ends: (
    Coord,
    Coord,
))
    ensures
        ends.0 == point_at_y(y_overlap.start, *x, *slope),
        ends.1 == point_at_y(y_overlap.end, *x, *slope),
{
    let known_x = x.start.x;
    let known_y = x.start.y;
    let b = known_y.sub(slope.mul(known_x));
    // A vertical line has the same horizontal position everywhere.
    if slope.is_infinite() || slope.is_nan() {
        (Coord { x: known_x, y: y_overlap.start }, Coord { x: known_x, y: y_overlap.end })
    } else {
        let x1 = y_overlap.start.sub(b).div(*slope);
        let x2 = y_overlap.end.sub(b).div(*slope);
        (Coord { x: x1, y: y_overlap.start }, Coord { x: x2, y: y_overlap.end })
    }
}

} // verus!
