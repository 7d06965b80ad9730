//! What slopes, bounds, ranges, points on lines, boxes and lists of lines are for.
use crate::anime::Anime;
use crate::double::Double;
use crate::geometry::{is_angle, is_chain, line_at, Coord, Line, LineString, Rect, QUARTER_TURN};
use crate::laws::{exact_product, exact_sum, law_reach_covers_gaps, law_sum_keeps_side};
use crate::number_laws::{apart, law_difference_is_nearest, law_signs, law_sum_is_nearest};
use crate::overlap::{common, point_at_x, point_at_y};
use crate::rounding::{lemma_magnitude_ordered, lemma_nearest_exact, magnitude};
use crate::tree::{all_near_pairs, components_in, lengths_of, near, Component, TarLine};
use std::ops::Range;
use vstd::arithmetic::power2::pow2;
use vstd::prelude::*;

verus! {

/// A quotient of two numbers is not rounded.
pub open spec fn exact_quotient(a: Double, b: Double) -> bool {
    a.over(b).finite() && a.over(b).size() * b.size() == a.size() * pow2(1074)
}

/// The value of a product that is not rounded.
pub proof fn lemma_exact_product(a: Double, b: Double)
    requires
        a.finite(),
        b.finite(),
        exact_product(a, b),
    ensures
        a.times(b).value() * pow2(1074) == a.value() * b.value(),
{
    let w = a.times(b);
    let unit = pow2(1074) as int;
    crate::number_laws::law_product_is_nearest(a, b, w);
    let (p, q, r) = (a.size(), b.size(), w.size());
    assert((-p) * q == -(p * q) && p * (-q) == -(p * q) && (-p) * (-q) == p * q && (-r) * unit
        == -(r * unit)) by (nonlinear_arith);
}

/// The value of a quotient that is not rounded.
pub proof fn lemma_exact_quotient(a: Double, b: Double)
    requires
        a.finite(),
        b.finite(),
        !b.zero(),
        exact_quotient(a, b),
    ensures
        a.over(b).value() * b.value() == a.value() * pow2(1074),
{
    let r = a.over(b);
    let unit = pow2(1074) as int;
    crate::number_laws::law_quotient_is_nearest(a, b, r);
    let (p, q, m) = (a.size(), b.size(), r.size());
    assert((-m) * q == -(m * q) && m * (-q) == -(m * q) && (-m) * (-q) == m * q && (-p) * unit
        == -(p * unit)) by (nonlinear_arith);
}

/// The slope of a line is the number nearest to its rise over its run, where the two are not
/// rounded, and its sign tells whether the line rises.
pub proof fn law_slope_is_rise_over_run(line: Line, c: Double)
    requires
        line.start.finite(),
        line.end.finite(),
        exact_sum(line.end.x, line.start.x.negated()),
        exact_sum(line.end.y, line.start.y.negated()),
        line.end.x.value() != line.start.x.value(),
        !c.nan(),
    ensures
        ({
            let rise = line.end.y.value() - line.start.y.value();
            let run = line.end.x.value() - line.start.x.value();
            let slope = line.inclination();
            &&& !slope.nan()
            &&& apart(slope.size() * apart(run, 0), apart(rise, 0) * pow2(1074)) <= apart(
                c.size() * apart(run, 0),
                apart(rise, 0) * pow2(1074),
            )
            &&& rise != 0 ==> (slope.negative() <==> (rise < 0) != (run < 0))
            &&& rise == 0 ==> slope.zero()
        }),
{
    let (dx, dy) = (line.end.x.minus(line.start.x), line.end.y.minus(line.start.y));
    law_signs(line.start.x);
    law_signs(line.start.y);
    law_sum_is_nearest(line.end.x, line.start.x.negated(), dx);
    law_sum_is_nearest(line.end.y, line.start.y.negated(), dy);
    lemma_magnitude_ordered(dx.pattern(), 0);
    lemma_magnitude_ordered(dy.pattern(), 0);
    lemma_magnitude_ordered(0, 0);
    crate::number_laws::law_quotient_is_nearest(dy, dx, c);
    if dy.zero() {
        let den = dx.size();
        let unit = pow2(1074) as int;
        lemma_nearest_exact(0, den);
        assert(magnitude(0) * den == 0 && dy.size() * unit == 0) by (nonlinear_arith)
            requires
                magnitude(0) == 0,
                dy.size() == 0,
        ;
    }
}

/// The slope of a line is found in three steps: its rise and its run are each rounded, and then
/// their quotient.
pub proof fn law_slope_in_steps(line: Line, rise: Double, run: Double)
    requires
        rise == line.end.y.plus(line.start.y.negated()),
        run == line.end.x.plus(line.start.x.negated()),
    ensures
        line.inclination() == rise.over(run),
{
}

/// A rectangle has the coordinates of its two corners, of two numbers the smaller one below.
pub proof fn law_rectangle_spans_corners(c1: Coord, c2: Coord)
    ensures
        ({
            let r = Rect::spanned(c1, c2);
            &&& !c1.x.nan() && !c2.x.nan() ==> r.min.x.value() <= r.max.x.value()
            &&& !c1.y.nan() && !c2.y.nan() ==> r.min.y.value() <= r.max.y.value()
            &&& (r.min.x == c1.x && r.max.x == c2.x) || (r.min.x == c2.x && r.max.x == c1.x)
            &&& (r.min.y == c1.y && r.max.y == c2.y) || (r.min.y == c2.y && r.max.y == c1.y)
        }),
{
}

/// The bounds of a line are the rectangle of its ends.
pub proof fn law_bounds_span_ends(line: Line)
    requires
        line.start.numeric(),
        line.end.numeric(),
    ensures
        ({
            let r = line.bounds();
            let (a, b) = (line.start, line.end);
            &&& r.min.x.value() <= r.max.x.value()
            &&& r.min.y.value() <= r.max.y.value()
            &&& (r.min.x == a.x && r.max.x == b.x) || (r.min.x == b.x && r.max.x == a.x)
            &&& (r.min.y == a.y && r.max.y == b.y) || (r.min.y == b.y && r.max.y == a.y)
        }),
{
    law_rectangle_spans_corners(line.start, line.end);
}

/// Two ranges have nothing in common exactly where one ends before the other starts; else the
/// common part starts at the later start and ends at the earlier end.
pub proof fn law_overlap_ends(r1: Range<Double>, r2: Range<Double>)
    requires
        !r1.start.nan(),
        !r1.end.nan(),
        !r2.start.nan(),
        !r2.end.nan(),
    ensures
        common(r1, r2) is None <==> r1.end.value() < r2.start.value() || r2.end.value()
            < r1.start.value(),
        common(r1, r2) matches Some(r) ==> {
            &&& r.start == r1.start || r.start == r2.start
            &&& r.end == r1.end || r.end == r2.end
            &&& r.start.value() >= r1.start.value() && r.start.value() >= r2.start.value()
            &&& r.end.value() <= r1.end.value() && r.end.value() <= r2.end.value()
        },
{
}

/// A bound that is not a number does not limit the common part of two ranges.
pub proof fn law_overlap_beside_nan(r1: Range<Double>, r2: Range<Double>)
    requires
        r2.start.nan(),
        r2.end.nan(),
    ensures
        common(r1, r2) is Some,
        common(r2, r1) is Some,
        !r1.start.nan() ==> common(r1, r2)->0.start == r1.start && common(r2, r1)->0.start
            == r1.start,
        !r1.end.nan() ==> common(r1, r2)->0.end == r1.end && common(r2, r1)->0.end == r1.end,
{
}

/// Solving the equation of a line for the height keeps the horizontal position, gives a point on
/// the line where nothing is rounded, and in general rounds each of its steps.
pub proof fn law_point_above(x: Double, line: Line, slope: Double)
    ensures
        ({
            let p = point_at_x(x, line, slope);
            let w = slope.times(line.start.x);
            let b = line.start.y.plus(w.negated());
            &&& p.x == x
            &&& p.y == slope.times(x).plus(b)
            &&& {
                &&& slope.finite()
                &&& x.finite()
                &&& line.start.finite()
                &&& exact_product(slope, line.start.x)
                &&& exact_sum(line.start.y, w.negated())
                &&& exact_product(slope, x)
                &&& exact_sum(slope.times(x), b)
            } ==> (p.y.value() - line.start.y.value()) * pow2(1074) == slope.value() * (p.x.value()
                - line.start.x.value())
        }),
{
    let p = point_at_x(x, line, slope);
    let w = slope.times(line.start.x);
    let b = line.start.y.plus(w.negated());
    if slope.finite() && x.finite() && line.start.finite() && exact_product(slope, line.start.x)
        && exact_sum(line.start.y, w.negated()) && exact_product(slope, x) && exact_sum(
        slope.times(x),
        b,
    ) {
        law_signs(w);
        lemma_exact_product(slope, line.start.x);
        lemma_exact_product(slope, x);
        let unit = pow2(1074) as int;
        let v = slope.times(x);
        let (m, x0, y0) = (slope.value(), line.start.x.value(), line.start.y.value());
        assert((p.y.value() - y0) * unit == m * (x.value() - x0)) by (nonlinear_arith)
            requires
                p.y.value() - y0 == v.value() - w.value(),
                w.value() * unit == m * x0,
                v.value() * unit == m * x.value(),
        ;
    }
}

/// Solving the equation of a line for the horizontal position keeps the height, gives a point on
/// the line where nothing is rounded, and in general rounds each of its steps. On a vertical line
/// the point is straight above or below its start.
pub proof fn law_point_beside(y: Double, line: Line, slope: Double)
    ensures
        ({
            let p = point_at_y(y, line, slope);
            let w = slope.times(line.start.x);
            let b = line.start.y.plus(w.negated());
            let d = y.plus(b.negated());
            &&& p.y == y
            &&& slope.infinite() || slope.nan() ==> p.x == line.start.x
            &&& slope.finite() ==> p.x == d.over(slope)
            &&& {
                &&& slope.finite()
                &&& !slope.zero()
                &&& y.finite()
                &&& line.start.finite()
                &&& exact_product(slope, line.start.x)
                &&& exact_sum(line.start.y, w.negated())
                &&& exact_sum(y, b.negated())
                &&& exact_quotient(d, slope)
            } ==> (p.y.value() - line.start.y.value()) * pow2(1074) == slope.value() * (p.x.value()
                - line.start.x.value())
        }),
{
    let p = point_at_y(y, line, slope);
    let w = slope.times(line.start.x);
    let b = line.start.y.plus(w.negated());
    let d = y.plus(b.negated());
    if slope.finite() && !slope.zero() && y.finite() && line.start.finite() && exact_product(
        slope,
        line.start.x,
    ) && exact_sum(line.start.y, w.negated()) && exact_sum(y, b.negated()) && exact_quotient(
        d,
        slope,
    ) {
        law_signs(w);
        law_signs(b);
        lemma_exact_product(slope, line.start.x);
        lemma_exact_quotient(d, slope);
        let unit = pow2(1074) as int;
        let (m, x0, y0) = (slope.value(), line.start.x.value(), line.start.y.value());
        let x = p.x.value();
        assert((y.value() - y0) * unit == m * (x - x0)) by (nonlinear_arith)
            requires
                d.value() == y.value() - y0 + w.value(),
                w.value() * unit == m * x0,
                x * m == d.value() * unit,
        ;
    }
}

/// A line passes through its start, also where the product is rounded.
pub proof fn law_line_passes_its_start(line: Line, slope: Double)
    requires
        line.start.finite(),
        slope.finite(),
        slope.times(line.start.x).finite(),
        exact_sum(line.start.y, slope.times(line.start.x).negated()),
    ensures
        point_at_x(line.start.x, line, slope).y.value() == line.start.y.value(),
{
    let w = slope.times(line.start.x);
    let b = line.start.y.plus(w.negated());
    law_signs(w);
    lemma_magnitude_ordered(line.start.y.pattern(), 0);
    law_sum_is_nearest(w, b, line.start.y);
}

/// The box around a target line reaches the distance beyond its ends on every side, to the nearest
/// number.
pub proof fn law_box_reaches(line: Line, distance: Double, c: Double)
    requires
        line.start.finite(),
        line.end.finite(),
        distance.finite(),
        !c.nan(),
    ensures
        ({
            let (lower, upper) = TarLine(line, distance).reach();
            let (a, b, d) = (line.start, line.end, distance.value());
            let left = if a.x.value() < b.x.value() {
                a.x.value() - d
            } else {
                b.x.value() - d
            };
            let right = if a.x.value() < b.x.value() {
                b.x.value() + d
            } else {
                a.x.value() + d
            };
            let bottom = if a.y.value() < b.y.value() {
                a.y.value() - d
            } else {
                b.y.value() - d
            };
            let top = if a.y.value() < b.y.value() {
                b.y.value() + d
            } else {
                a.y.value() + d
            };
            &&& !lower.x.nan() && !lower.y.nan() && !upper.x.nan() && !upper.y.nan()
            &&& apart(lower.x.value(), left) <= apart(c.value(), left)
            &&& apart(lower.y.value(), bottom) <= apart(c.value(), bottom)
            &&& apart(upper.x.value(), right) <= apart(c.value(), right)
            &&& apart(upper.y.value(), top) <= apart(c.value(), top)
        }),
{
    law_bounds_span_ends(line);
    let r = line.bounds();
    law_difference_is_nearest(r.min.x, distance, c);
    law_difference_is_nearest(r.min.y, distance, c);
    law_sum_is_nearest(r.max.x, distance, c);
    law_sum_is_nearest(r.max.y, distance, c);
}

/// All coordinates of a line are finite.
pub open spec fn finite_line(line: Line) -> bool {
    line.start.finite() && line.end.finite()
}

/// How far the ends of one line lie to the right of those of another, or above them: negative where
/// they do not.
pub open spec fn gap(a: Double, b: Double, c: Double, d: Double) -> int {
    let low = if a.value() < b.value() {
        a.value()
    } else {
        b.value()
    };
    let high = if c.value() < d.value() {
        d.value()
    } else {
        c.value()
    };
    low - high
}

/// No gap between two lines, to either side, above or below, is wider than `width`.
pub open spec fn gaps_within(s: Line, t: Line, width: int) -> bool {
    &&& gap(s.start.x, s.end.x, t.start.x, t.end.x) <= width
    &&& gap(t.start.x, t.end.x, s.start.x, s.end.x) <= width
    &&& gap(s.start.y, s.end.y, t.start.y, t.end.y) <= width
    &&& gap(t.start.y, t.end.y, s.start.y, s.end.y) <= width
}

/// Every pair of lines without a gap wider than the reach is a candidate, exactly once; the
/// candidates name lines that are there.
pub proof fn law_close_lines_are_candidates(
    sources: Seq<Component>,
    targets: Seq<Component>,
    reach: Double,
    pairs: Seq<(usize, usize)>,
    k: usize,
    l: usize,
)
    requires
        all_near_pairs(sources, targets, reach, pairs),
        k < sources.len(),
        l < targets.len(),
        reach.finite(),
        finite_line(sources[k as int].line),
        finite_line(targets[l as int].line),
        gaps_within(sources[k as int].line, targets[l as int].line, reach.value()),
    ensures
        exists|i: int| 0 <= i < pairs.len() && pairs[i] == (k, l),
        forall|i: int, j: int|
            0 <= i < pairs.len() && 0 <= j < pairs.len() && pairs[i] == (k, l) && pairs[j] == (k, l)
                ==> i == j,
        forall|i: int|
            0 <= i < pairs.len() ==> (#[trigger] pairs[i]).0 < sources.len() && pairs[i].1
                < targets.len(),
{
    let (s, t) = (sources[k as int], targets[l as int]);
    law_bounds_span_ends(s.line);
    law_bounds_span_ends(t.line);
    law_reach_covers_gaps(s, t, reach);
    assert(pairs.contains((k, l)));
    assert forall|i: int| 0 <= i < pairs.len() implies (#[trigger] pairs[i]).0 < sources.len()
        && pairs[i].1 < targets.len() by {
        assert(pairs.contains((pairs[i].0, pairs[i].1)));
    }
}

/// Two intervals, each between two order keys in either order, have one in common.
pub open spec fn keys_meet(a: int, b: int, c: int, d: int) -> bool {
    exists|v: int| #[trigger]
        key_between(v, a, b) && key_between(v, c, d)
}

/// An order key lies between two others, which may come in either order.
pub open spec fn key_between(v: int, a: int, b: int) -> bool {
    a <= v <= b || b <= v <= a
}

proof fn lemma_keys_meet(a: int, b: int, c: int, d: int)
    ensures
        keys_meet(a, b, c, d) <==> {
            let low = if a < b {
                a
            } else {
                b
            };
            let high = if a < b {
                b
            } else {
                a
            };
            let left = if c < d {
                c
            } else {
                d
            };
            let right = if c < d {
                d
            } else {
                c
            };
            low <= right && left <= high
        },
{
    let low = if a < b {
        a
    } else {
        b
    };
    let left = if c < d {
        c
    } else {
        d
    };
    let v = if low < left {
        left
    } else {
        low
    };
    let here = key_between(v, a, b);
    if keys_meet(a, b, c, d) {
        let w = choose|w: int| #[trigger] key_between(w, a, b) && key_between(w, c, d);
        assert(key_between(w, c, d));
    }
}

/// A source line is near a target line exactly where, both horizontally and vertically, the interval
/// between its ends has a position in common with the interval of the target line, whose lower end
/// was moved down by the reach and whose upper end was moved up by it.
pub proof fn law_what_is_near(
    s: Component,
    t: Component,
    reach: Double,
    low: Coord,
    high: Coord,
)
    requires
        t.line.start.numeric(),
        t.line.end.numeric(),
        (low.x == t.line.start.x && high.x == t.line.end.x) || (low.x == t.line.end.x && high.x
            == t.line.start.x),
        (low.y == t.line.start.y && high.y == t.line.end.y) || (low.y == t.line.end.y && high.y
            == t.line.start.y),
        low.x.value() <= high.x.value(),
        low.y.value() <= high.y.value(),
    ensures
        near(s, t, reach) <==> {
            &&& keys_meet(
                s.line.start.x.rank(),
                s.line.end.x.rank(),
                low.x.plus(reach.negated()).rank(),
                high.x.plus(reach).rank(),
            )
            &&& keys_meet(
                s.line.start.y.rank(),
                s.line.end.y.rank(),
                low.y.plus(reach.negated()).rank(),
                high.y.plus(reach).rank(),
            )
        },
{
    let r = t.line.bounds();
    law_bounds_span_ends(t.line);
    lemma_same_rank(r.min.x, low.x);
    lemma_same_rank(r.max.x, high.x);
    lemma_same_rank(r.min.y, low.y);
    lemma_same_rank(r.max.y, high.y);
    lemma_moved(r.min.x, low.x, reach.negated());
    lemma_moved(r.max.x, high.x, reach);
    lemma_moved(r.min.y, low.y, reach.negated());
    lemma_moved(r.max.y, high.y, reach);
    lemma_keys_meet(
        s.line.start.x.rank(),
        s.line.end.x.rank(),
        low.x.plus(reach.negated()).rank(),
        high.x.plus(reach).rank(),
    );
    lemma_keys_meet(
        s.line.start.y.rank(),
        s.line.end.y.rank(),
        low.y.plus(reach.negated()).rank(),
        high.y.plus(reach).rank(),
    );
}

proof fn lemma_same_rank(a: Double, b: Double)
    ensures
        a.value() == b.value() <==> a.rank() == b.rank(),
{
    crate::double::lemma_rank_orders(a, b);
}

/// Numbers that are the same but for the sign of a zero are moved to the same place.
proof fn lemma_moved(a: Double, b: Double, c: Double)
    requires
        !a.nan(),
        !b.nan(),
        a.rank() == b.rank(),
    ensures
        a.plus(c).rank() == b.plus(c).rank(),
{
    lemma_magnitude_ordered(0, 0);
    if a.pattern() != 0 {
        assert(a == b);
    }
}

/// The candidates are exactly the near pairs of lines, each once.
pub proof fn law_candidates_are_near(
    sources: Seq<Component>,
    targets: Seq<Component>,
    reach: Double,
    pairs: Seq<(usize, usize)>,
    k: usize,
    l: usize,
    i: int,
    j: int,
)
    requires
        all_near_pairs(sources, targets, reach, pairs),
    ensures
        (exists|i: int| 0 <= i < pairs.len() && pairs[i] == (k, l)) <==> k < sources.len() && l
            < targets.len() && near(sources[k as int], targets[l as int], reach),
        0 <= i < j < pairs.len() ==> pairs[i] != pairs[j],
{
    assert(pairs.contains((k, l)) <==> exists|i: int| 0 <= i < pairs.len() && pairs[i] == (k, l));
}

/// Lines with a gap that is wider than the reach, by at least one double in between, are no
/// candidates.
pub proof fn law_distant_boxes_do_not_meet(s: Component, t: Component, reach: Double, c: Double)
    requires
        finite_line(s.line),
        finite_line(t.line),
        reach.finite(),
        c.finite(),
        ({
            let (a, b) = (s.line.start, s.line.end);
            let (d, e) = (t.line.start, t.line.end);
            ||| {
                &&& d.x.value() + reach.value() <= c.value()
                &&& e.x.value() + reach.value() <= c.value()
                &&& c.value() < a.x.value()
                &&& c.value() < b.x.value()
                &&& reach.value() >= 0
            }
            ||| {
                &&& d.y.value() + reach.value() <= c.value()
                &&& e.y.value() + reach.value() <= c.value()
                &&& c.value() < a.y.value()
                &&& c.value() < b.y.value()
                &&& reach.value() >= 0
            }
            ||| {
                &&& d.x.value() - reach.value() >= c.value()
                &&& e.x.value() - reach.value() >= c.value()
                &&& c.value() > a.x.value()
                &&& c.value() > b.x.value()
                &&& reach.value() >= 0
            }
            ||| {
                &&& d.y.value() - reach.value() >= c.value()
                &&& e.y.value() - reach.value() >= c.value()
                &&& c.value() > a.y.value()
                &&& c.value() > b.y.value()
                &&& reach.value() >= 0
            }
        }),
    ensures
        !near(s, t, reach),
{
    let r = t.line.bounds();
    let (lower, upper) = TarLine(t.line, reach).reach();
    law_bounds_span_ends(t.line);
    law_signs(reach);
    law_sum_keeps_side(r.min.x, reach.negated(), c);
    law_sum_keeps_side(r.min.y, reach.negated(), c);
    law_sum_keeps_side(r.max.x, reach, c);
    law_sum_keeps_side(r.max.y, reach, c);
    law_sum_keeps_side(r.min.x, reach.negated(), r.min.x);
    law_sum_keeps_side(r.min.y, reach.negated(), r.min.y);
    law_sum_keeps_side(r.max.x, reach, r.max.x);
    law_sum_keeps_side(r.max.y, reach, r.max.y);
    lemma_ranks(lower.x, upper.x, s.line.start.x, s.line.end.x);
    lemma_ranks(lower.y, upper.y, s.line.start.y, s.line.end.y);
}

proof fn lemma_ranks(a: Double, b: Double, c: Double, d: Double)
    ensures
        a.rank() < b.rank() <==> a.value() < b.value(),
        c.rank() < d.rank() <==> c.value() < d.value(),
        a.rank() < c.rank() <==> a.value() < c.value(),
        a.rank() < d.rank() <==> a.value() < d.value(),
        c.rank() < a.rank() <==> c.value() < a.value(),
        d.rank() < a.rank() <==> d.value() < a.value(),
        b.rank() < c.rank() <==> b.value() < c.value(),
        b.rank() < d.rank() <==> b.value() < d.value(),
        c.rank() < b.rank() <==> c.value() < b.value(),
        d.rank() < b.rank() <==> d.value() < b.value(),
{
    crate::double::lemma_rank_orders(a, b);
    crate::double::lemma_rank_orders(c, d);
    crate::double::lemma_rank_orders(a, c);
    crate::double::lemma_rank_orders(a, d);
    crate::double::lemma_rank_orders(c, a);
    crate::double::lemma_rank_orders(d, a);
    crate::double::lemma_rank_orders(b, c);
    crate::double::lemma_rank_orders(b, d);
    crate::double::lemma_rank_orders(c, b);
    crate::double::lemma_rank_orders(d, b);
}

/// How many lines the first `i` geometries have: one less than their points, if they have any.
pub open spec fn lines_before(geometries: Seq<LineString>, i: int) -> int
    decreases i,
{
    if i <= 0 {
        0
    } else {
        lines_before(geometries, i - 1) + if geometries[i - 1].coords@.len() == 0 {
            0
        } else {
            geometries[i - 1].coords@.len() - 1
        }
    }
}

proof fn lemma_lines_before(geometries: Seq<LineString>, i: int)
    requires
        0 <= i <= geometries.len(),
    ensures
        lines_before(geometries, i) == crate::laws::offset(geometries, i),
    decreases i,
{
    if i > 0 {
        lemma_lines_before(geometries, i - 1);
        assert(geometries.take(i).drop_last() =~= geometries.take(i - 1));
    } else {
        assert(geometries.take(0) =~= Seq::empty());
    }
}

/// The lines of the geometries are listed one after the other, each from one point to the next, with
/// the place of its geometry, its slope and its angle, and nothing else is listed.
pub proof fn law_lines_as_listed(geometries: Seq<LineString>, i: int, k: int)
    requires
        geometries.len() <= usize::MAX,
        0 <= i < geometries.len(),
        0 <= k,
        k + 1 < geometries[i].coords@.len(),
    ensures
        ({
            let g = geometries[i];
            let n = lines_before(geometries, i) + k;
            let c = components_in(geometries)[n];
            &&& components_in(geometries).len() == lines_before(geometries, geometries.len() as int)
            &&& 0 <= n < components_in(geometries).len()
            &&& c.index == i
            &&& c.line.start == g.coords@[k]
            &&& c.line.end == g.coords@[k + 1]
            &&& c.slope == c.line.end.y.minus(c.line.start.y).over(
                c.line.end.x.minus(c.line.start.x),
            )
            &&& c.degrees == g.degrees@[k]
        }),
{
    lemma_lines_before(geometries, i);
    lemma_lines_before(geometries, geometries.len() as int);
    crate::laws::law_every_line_is_listed(geometries);
    assert(geometries.take(geometries.len() as int) =~= geometries);
    crate::laws::lemma_position(geometries, i, k);
}

/// The lengths of the geometries are listed as they are.
pub proof fn law_lengths_as_listed(geometries: Seq<LineString>, i: int)
    requires
        0 <= i < geometries.len(),
    ensures
        lengths_of(geometries).len() == geometries.len(),
        lengths_of(geometries)[i] == geometries[i].length,
{
}

/// A matching that was loaded holds the tolerances, the length of every geometry and every line as
/// they were given, source and target each in its own place.
pub proof fn law_loaded_as_given(
    a: Anime,
    source: Seq<LineString>,
    target: Seq<LineString>,
    distance_tolerance: Double,
    angle_tolerance: Double,
    i: int,
    j: int,
    k: int,
    l: int,
)
    requires
        a.loaded_from(source, target, distance_tolerance, angle_tolerance),
    ensures
        a.distance_tolerance == distance_tolerance,
        a.angle_tolerance == angle_tolerance,
        a.target_tree.reach == distance_tolerance,
        a.source_lens@.len() == source.len(),
        a.target_lens@.len() == target.len(),
        0 <= i < source.len() ==> a.source_lens@[i] == source[i].length,
        0 <= j < target.len() ==> a.target_lens@[j] == target[j].length,
        a.source_tree.components@.len() == lines_before(source, source.len() as int),
        a.target_tree.components@.len() == lines_before(target, target.len() as int),
        0 <= i < source.len() && 0 <= k && k + 1 < source[i].coords@.len() ==> {
            let c = a.source_tree.components@[lines_before(source, i) + k];
            &&& c.index == i
            &&& c.line.start == source[i].coords@[k]
            &&& c.line.end == source[i].coords@[k + 1]
            &&& c.degrees == source[i].degrees@[k]
        },
        0 <= j < target.len() && 0 <= l && l + 1 < target[j].coords@.len() ==> {
            let c = a.target_tree.components@[lines_before(target, j) + l];
            &&& c.index == j
            &&& c.line.start == target[j].coords@[l]
            &&& c.line.end == target[j].coords@[l + 1]
            &&& c.degrees == target[j].degrees@[l]
        },
{
    assert(a.source_lens.len() == a.source_lens@.len());
    assert(a.target_lens.len() == a.target_lens@.len());
    if 0 <= i < source.len() {
        law_lengths_as_listed(source, i);
        if 0 <= k && k + 1 < source[i].coords@.len() {
            law_lines_as_listed(source, i, k);
        }
    }
    if 0 <= j < target.len() {
        law_lengths_as_listed(target, j);
        if 0 <= l && l + 1 < target[j].coords@.len() {
            law_lines_as_listed(target, j, l);
        }
    }
    lemma_lines_before(source, source.len() as int);
    lemma_lines_before(target, target.len() as int);
    crate::laws::law_every_line_is_listed(source);
    crate::laws::law_every_line_is_listed(target);
    assert(source.take(source.len() as int) =~= source);
    assert(target.take(target.len() as int) =~= target);
}

/// The angle of a slope lies on the side of the slope and not beyond a quarter-turn, which only a
/// vertical line must have; a level line has none, and a line without a slope no angle.
pub proof fn law_angle_of_slope(slope: Double, degrees: Double)
    ensures
        slope.nan() ==> (is_angle(slope, degrees) <==> degrees.nan()),
        !slope.nan() ==> (is_angle(slope, degrees) <==> {
            &&& !degrees.nan()
            &&& degrees.pattern() <= 0x4056_8000_0000_0000
            &&& degrees.negative() == slope.negative()
            &&& slope.pattern() == 0 ==> degrees.pattern() == 0
            &&& slope.pattern() == 0x7ff0_0000_0000_0000 ==> degrees.pattern()
                == 0x4056_8000_0000_0000
        }),
{
    law_signs(degrees);
    lemma_magnitude_ordered(degrees.pattern(), QUARTER_TURN as int);
    lemma_magnitude_ordered(QUARTER_TURN as int, degrees.pattern());
}

/// What makes a line string: an angle for each line, and where all points are finite a length that
/// is not negative and not zero if a line has a slope.
pub proof fn law_what_makes_a_chain(coords: Seq<Coord>, length: Double, degrees: Seq<Double>)
    ensures
        is_chain(coords, length, degrees) <==> {
            &&& degrees.len() == if coords.len() == 0 {
                0
            } else {
                coords.len() - 1
            }
            &&& forall|k: int|
                0 <= k < degrees.len() ==> is_angle(
                    (Line { start: coords[k], end: coords[k + 1] }).inclination(),
                    #[trigger] degrees[k],
                )
            &&& (forall|k: int|
                0 <= k < coords.len() ==> (#[trigger] coords[k]).x.finite() && coords[k].y.finite())
                ==> {
                &&& !length.nan()
                &&& length.value() >= 0
                &&& length.value() == 0 ==> forall|k: int|
                    0 <= k < degrees.len() ==> (#[trigger] degrees[k]).nan()
            }
        },
{
    let right = {
        &&& degrees.len() == if coords.len() == 0 {
            0
        } else {
            coords.len() - 1
        }
        &&& forall|k: int|
            0 <= k < degrees.len() ==> is_angle(
                (Line { start: coords[k], end: coords[k + 1] }).inclination(),
                #[trigger] degrees[k],
            )
        &&& (forall|k: int|
            0 <= k < coords.len() ==> (#[trigger] coords[k]).x.finite() && coords[k].y.finite())
            ==> {
            &&& !length.nan()
            &&& length.value() >= 0
            &&& length.value() == 0 ==> forall|k: int|
                0 <= k < degrees.len() ==> (#[trigger] degrees[k]).nan()
        }
    };
    if is_chain(coords, length, degrees) {
        assert forall|k: int| 0 <= k < degrees.len() implies is_angle(
            (Line { start: coords[k], end: coords[k + 1] }).inclination(),
            #[trigger] degrees[k],
        ) by {
            assert(line_at(coords, k) == (Line { start: coords[k], end: coords[k + 1] }));
        }
        if length.value() == 0 {
            assert forall|k: int|
                0 <= k < degrees.len() && crate::geometry::all_finite(coords) implies (
            #[trigger] degrees[k]).nan() by {
                assert(line_at(coords, k).inclination().nan());
            }
        }
        assert(crate::geometry::all_finite(coords) <==> (forall|k: int|
            0 <= k < coords.len() ==> (#[trigger] coords[k]).x.finite() && coords[k].y.finite()));
        assert(right);
    }
    if right {
        assert forall|k: int| 0 <= k < degrees.len() implies is_angle(
            line_at(coords, k).inclination(),
            #[trigger] degrees[k],
        ) by {
            assert(line_at(coords, k) == (Line { start: coords[k], end: coords[k + 1] }));
        }
        if crate::geometry::has_slope(coords) && length.value() == 0
            && crate::geometry::all_finite(coords) {
            let k = choose|k: int|
                0 <= k < crate::geometry::line_count(coords.len() as int) && !(#[trigger] line_at(
                    coords,
                    k,
                )).inclination().nan();
            assert(degrees[k].nan());
        }
        assert(is_chain(coords, length, degrees));
    }
}

} // verus!
