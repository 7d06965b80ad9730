//! What comparing, sharing, entering and finding are for.
use crate::anime::{Anime, Matches};
use crate::double::Double;
use crate::geometry::{Coord, Line, LineString};
use crate::laws::{
    exact_product, exact_sum, geometries_match, is_matched, law_found_where_geometries_match,
    law_reach_covers_gaps, law_sum_keeps_side, pair_matches,
};
use crate::matches::{
    comparable, contents, entered, judged, lemma_place, listed, normalized, shared_part, tolerant,
    x_overlap, y_overlap, MatchCandidate, MatchesMap, Measured, HALF_TURN,
};
use crate::number_laws::{apart, law_signs};
use crate::rounding::{lemma_magnitude_ordered, magnitude, INFINITE};

use crate::shape_laws::{
    exact_quotient, finite_line, gaps_within, law_bounds_span_ends, law_overlap_ends,
    law_point_above, law_point_beside,
};
use crate::tree::{components_of, Component};
use std::ops::Range;
use vstd::arithmetic::power2::{lemma_pow2_pos, pow2};
use vstd::prelude::*;

verus! {

/// Two lines have similar directions only where their directions, as values in the half-turn,
/// differ by less than the tolerance, and they have where a double at least as large as the
/// difference is below the tolerance. What is not a number is not similar.
pub proof fn law_similar_directions(s: Component, t: Component, tolerance: Double, c: Double)
    requires
        normalized(s.degrees).finite(),
        normalized(t.degrees).finite(),
    ensures
        ({
            let difference = apart(normalized(s.degrees).value(), normalized(t.degrees).value());
            &&& tolerant(s, t, tolerance) ==> !tolerance.nan() && difference < tolerance.value()
            &&& c.finite() && !tolerance.nan() && difference <= c.value() && c.value()
                < tolerance.value() ==> tolerant(s, t, tolerance)
        }),
{
    let (x, y) = (normalized(s.degrees), normalized(t.degrees));
    let d = x.minus(y);
    law_signs(y);
    law_signs(d);
    lemma_magnitude_ordered(d.pattern(), INFINITE as int);
    if !tolerance.nan() && tolerance.finite() {
        law_signs(tolerance);
        law_sum_keeps_side(x, y.negated(), tolerance);
        law_sum_keeps_side(x, y.negated(), tolerance.negated());
    }
    if c.finite() {
        law_signs(c);
        law_sum_keeps_side(x, y.negated(), c);
        law_sum_keeps_side(x, y.negated(), c.negated());
    }
    if tolerance.infinite() {
        // Every difference of two finite numbers is below infinity.
        lemma_magnitude_ordered(x.pattern(), INFINITE as int);
        lemma_magnitude_ordered(y.pattern(), INFINITE as int);
        lemma_magnitude_ordered(INFINITE as int, 0);
        if tolerant(s, t, tolerance) {
            assert(!tolerance.negative());
            lemma_rounded_above(x, y);
        }
    }
}

/// A difference that is rounded to a finite number is less than infinity counts.
proof fn lemma_rounded_above(x: Double, y: Double)
    requires
        x.finite(),
        y.finite(),
        x.minus(y).finite(),
    ensures
        apart(x.value(), y.value()) < magnitude(INFINITE as int),
{
    let top = Double { bits: INFINITE };
    let d = x.minus(y);
    law_signs(y);
    law_signs(top);
    crate::number_laws::law_difference_is_nearest(x, y, top);
    crate::number_laws::law_difference_is_nearest(x, y, top.negated());
    lemma_magnitude_ordered(d.pattern(), INFINITE as int);
    lemma_magnitude_ordered(INFINITE as int, 0);
}

/// A smaller difference or a larger tolerance never takes similarity away.
pub proof fn law_similarity_is_monotonic(
    s: Component,
    t: Component,
    s2: Component,
    t2: Component,
    tolerance: Double,
    tolerance2: Double,
)
    requires
        normalized(s.degrees).finite(),
        normalized(t.degrees).finite(),
        normalized(s2.degrees).finite(),
        normalized(t2.degrees).finite(),
        apart(normalized(s2.degrees).value(), normalized(t2.degrees).value()) <= apart(
            normalized(s.degrees).value(),
            normalized(t.degrees).value(),
        ),
        !tolerance2.nan(),
        tolerance.value() <= tolerance2.value(),
        tolerant(s, t, tolerance),
    ensures
        tolerant(s2, t2, tolerance2),
{
    let (x, y) = (normalized(s.degrees), normalized(t.degrees));
    let (u, v) = (normalized(s2.degrees), normalized(t2.degrees));
    let d = x.minus(y).absolute();
    law_signs(x.minus(y));
    law_signs(u.minus(v));
    law_signs(y);
    law_signs(v);
    law_signs(d);
    if d.finite() {
        crate::number_laws::law_difference_is_nearest(x, y, d);
        lemma_monotonic_difference(x, y, u, v);
    } else {
        lemma_magnitude_ordered(x.minus(y).pattern(), INFINITE as int);
        lemma_magnitude_ordered(tolerance.pattern(), INFINITE as int);
    }
}

/// A smaller difference is not rounded to a larger one.
proof fn lemma_monotonic_difference(x: Double, y: Double, u: Double, v: Double)
    requires
        x.finite(),
        y.finite(),
        u.finite(),
        v.finite(),
        apart(u.value(), v.value()) <= apart(x.value(), y.value()),
    ensures
        u.minus(v).absolute().value() <= x.minus(y).absolute().value(),
        !u.minus(v).nan(),
        !x.minus(y).nan(),
{
    law_signs(y);
    law_signs(v);
    law_signs(x.minus(y));
    law_signs(u.minus(v));
    let (a, b) = (apart(x.value(), y.value()), apart(u.value(), v.value()));
    lemma_magnitude_ordered(0, 0);
    crate::rounding::lemma_nearest_exists(a, 1);
    crate::rounding::lemma_nearest_exists(b, 1);
    crate::rounding::lemma_rounding_monotonic(b, a, 1);
    crate::rounding::lemma_nearest_exact(0, 1);
    let (p, q) = (crate::rounding::nearest(a, 1), crate::rounding::nearest(b, 1));
    assert(x.minus(y).pattern() == p);
    assert(u.minus(v).pattern() == q);
    lemma_magnitude_ordered(q, p);
    lemma_magnitude_ordered(p, q);
}

/// The angles of two slopes are compared as directions: an angle that is not negative as it is, a
/// negative one from the other side, each rounded to the digits of its sum with a half-turn.
pub proof fn law_direction_of_angle(degrees: Double)
    requires
        !degrees.nan(),
        degrees.pattern() <= 0x4056_8000_0000_0000,
    ensures
        ({
            let half_turn = Double { bits: 0x4066_8000_0000_0000 };
            let turned = degrees.plus(half_turn).value();
            &&& normalized(degrees).finite()
            &&& !normalized(degrees).negative()
            &&& normalized(degrees).value() == if turned < half_turn.value() {
                turned
            } else {
                turned - half_turn.value()
            }
        }),
{
    law_signs(degrees);
    lemma_magnitude_ordered(degrees.pattern(), crate::geometry::QUARTER_TURN as int);
    lemma_magnitude_ordered(crate::geometry::QUARTER_TURN as int, degrees.pattern());
    crate::laws::law_angle_keeps_direction(degrees);
    crate::laws::lemma_quarter_turns();
    crate::laws::law_angle_in_half_turn(degrees);
    let half_turn = Double { bits: HALF_TURN };
    let sum = degrees.value() + half_turn.value();
    lemma_magnitude_ordered(degrees.pattern(), 0);
    crate::number_laws::law_sum_is_nearest(degrees, half_turn, half_turn);
    let turned = degrees.plus(half_turn);
    assert(!turned.negative());
    if turned.finite() {
        crate::laws::law_remainder_is_exact(turned, half_turn);
    }
}

/// A direction is found in two steps: a half-turn is added, and what is then more than one is taken
/// off.
pub proof fn law_direction_in_steps(degrees: Double, turned: Double)
    requires
        turned == degrees.plus(Double { bits: 0x4066_8000_0000_0000 }),
    ensures
        normalized(degrees) == turned.modulo(Double { bits: 0x4066_8000_0000_0000 }),
{
}

/// `v` lies between two numbers, which may come in either order.
pub open spec fn between(v: Double, a: Double, b: Double) -> bool {
    !v.nan() && (a.value() <= v.value() <= b.value() || b.value() <= v.value() <= a.value())
}

/// A vertical line at `v` crosses both lines.
pub open spec fn crossed_at_x(v: Double, s: Line, t: Line) -> bool {
    between(v, s.start.x, s.end.x) && between(v, t.start.x, t.end.x)
}

/// A horizontal line at `v` crosses both lines.
pub open spec fn crossed_at_y(v: Double, s: Line, t: Line) -> bool {
    between(v, s.start.y, s.end.y) && between(v, t.start.y, t.end.y)
}

/// All coordinates of a line are numbers.
pub open spec fn numeric_line(line: Line) -> bool {
    line.start.numeric() && line.end.numeric()
}

/// The common extents of two lines hold exactly the positions at which both are crossed.
pub proof fn law_common_extents(s: Line, t: Line, v: Double)
    requires
        numeric_line(s),
        numeric_line(t),
    ensures
        crossed_at_x(v, s, t) <==> (x_overlap(s, t) matches Some(r) && !v.nan() && r.start.value()
            <= v.value() <= r.end.value()),
        crossed_at_y(v, s, t) <==> (y_overlap(s, t) matches Some(r) && !v.nan() && r.start.value()
            <= v.value() <= r.end.value()),
        x_overlap(s, t) matches Some(r) ==> crossed_at_x(r.start, s, t) && crossed_at_x(r.end, s, t),
        y_overlap(s, t) matches Some(r) ==> crossed_at_y(r.start, s, t) && crossed_at_y(r.end, s, t),
{
    law_bounds_span_ends(s);
    law_bounds_span_ends(t);
    let (a, b) = (s.bounds(), t.bounds());
    law_overlap_ends(
        Range { start: a.min.x, end: a.max.x },
        Range { start: b.min.x, end: b.max.x },
    );
    law_overlap_ends(
        Range { start: a.min.y, end: a.max.y },
        Range { start: b.min.y, end: b.max.y },
    );
}

/// Two lines are compared exactly where their directions are similar and a vertical or a horizontal
/// line crosses both: either alone suffices.
pub proof fn law_what_is_compared(s: Component, t: Component, tolerance: Double)
    requires
        numeric_line(s.line),
        numeric_line(t.line),
    ensures
        comparable(s, t, tolerance) <==> tolerant(s, t, tolerance) && exists|v: Double|
            (#[trigger] crossed_at_x(v, s.line, t.line)) || crossed_at_y(v, s.line, t.line),
{
    let zero = Double { bits: 0 };
    law_common_extents(s.line, t.line, zero);
    if let Some(r) = x_overlap(s.line, t.line) {
        assert(crossed_at_x(r.start, s.line, t.line));
    }
    if let Some(r) = y_overlap(s.line, t.line) {
        let here = crossed_at_x(r.start, s.line, t.line);
        assert(crossed_at_y(r.start, s.line, t.line));
    }
    if exists|v: Double|
        (#[trigger] crossed_at_x(v, s.line, t.line)) || crossed_at_y(v, s.line, t.line) {
        let v = choose|v: Double|
            (#[trigger] crossed_at_x(v, s.line, t.line)) || crossed_at_y(v, s.line, t.line);
        law_common_extents(s.line, t.line, v);
    }
}

/// The shared part of a line that does not rise steeply is looked for along its horizontal extent;
/// that of a steeply rising or vertical one along its height.
pub open spec fn lies_flat(s: Component) -> bool {
    &&& !s.degrees.nan()
    &&& s.degrees.value() <= (Double { bits: 0x4046_8000_0000_0000 }).value()
    &&& s.slope.pattern() != 0x7ff0_0000_0000_0000
}

/// A line shares a part exactly where both lines are crossed, and the part reaches from the first to
/// the last position at which they are.
pub proof fn law_shared_part_is_what_is_crossed(s: Component, t: Component, v: Double)
    requires
        numeric_line(s.line),
        numeric_line(t.line),
    ensures
        shared_part(s, t) matches Some(ends) ==> if lies_flat(s) {
            &&& crossed_at_x(ends.0.x, s.line, t.line)
            &&& crossed_at_x(ends.1.x, s.line, t.line)
            &&& crossed_at_x(v, s.line, t.line) ==> ends.0.x.value() <= v.value()
                <= ends.1.x.value()
        } else {
            &&& crossed_at_y(ends.0.y, s.line, t.line)
            &&& crossed_at_y(ends.1.y, s.line, t.line)
            &&& crossed_at_y(v, s.line, t.line) ==> ends.0.y.value() <= v.value()
                <= ends.1.y.value()
        },
        shared_part(s, t) is None ==> if lies_flat(s) {
            !crossed_at_x(v, s.line, t.line)
        } else {
            !crossed_at_y(v, s.line, t.line)
        },
{
    law_common_extents(s.line, t.line, v);
}

/// An end of a shared part lies on the source line, where nothing is rounded: its rise from the start
/// of the line is the slope times its run. In general each step of solving the equation of the line
/// is rounded, for each end by itself.
pub proof fn law_shared_ends_lie_on_line(s: Component, t: Component, first: bool)
    requires
        shared_part(s, t) is Some,
    ensures
        ({
            let ends = shared_part(s, t)->0;
            let p = if first {
                ends.0
            } else {
                ends.1
            };
            let start = s.line.start;
            let w = s.slope.times(start.x);
            let b = start.y.plus(w.negated());
            let d = p.y.plus(b.negated());
            &&& lies_flat(s) ==> p.y == s.slope.times(p.x).plus(b)
            &&& !lies_flat(s) && s.slope.finite() ==> p.x == d.over(s.slope)
            &&& !lies_flat(s) && !s.slope.finite() ==> p.x == start.x
            &&& {
                &&& s.slope.finite()
                &&& start.finite()
                &&& exact_product(s.slope, start.x)
                &&& exact_sum(start.y, w.negated())
                &&& lies_flat(s) ==> p.x.finite() && exact_product(s.slope, p.x) && exact_sum(
                    s.slope.times(p.x),
                    b,
                )
                &&& !lies_flat(s) ==> !s.slope.zero() && p.y.finite() && exact_sum(p.y, b.negated())
                    && exact_quotient(d, s.slope)
            } ==> (p.y.value() - start.y.value()) * pow2(1074) == s.slope.value() * (p.x.value()
                - start.x.value())
        }),
{
    if lies_flat(s) {
        let r = x_overlap(s.line, t.line)->0;
        law_point_above(r.start, s.line, s.slope);
        law_point_above(r.end, s.line, s.slope);
    } else {
        let r = y_overlap(s.line, t.line)->0;
        law_point_beside(r.start, s.line, s.slope);
        law_point_beside(r.end, s.line, s.slope);
    }
}

/// One of the two ends of a shared part.
pub open spec fn is_end(s: Component, t: Component, p: Coord) -> bool {
    shared_part(s, t) matches Some(ends) && (p == ends.0 || p == ends.1)
}

/// Where an end of a shared part lies depends on its own position along the source line alone: ends
/// of two shared parts of one line at the same position are the same point, whichever targets they
/// face and whether a part starts or ends there.
pub proof fn law_end_depends_on_its_position(
    s: Component,
    t: Component,
    u: Component,
    p: Coord,
    q: Coord,
)
    requires
        is_end(s, t, p),
        is_end(s, u, q),
        lies_flat(s) ==> p.x == q.x,
        !lies_flat(s) ==> p.y == q.y,
    ensures
        p == q,
{
    law_shared_ends_lie_on_line(s, t, true);
    law_shared_ends_lie_on_line(s, t, false);
    law_shared_ends_lie_on_line(s, u, true);
    law_shared_ends_lie_on_line(s, u, false);
}

/// The rise between the two ends of a shared part is the slope times the run between them, where
/// both lie on the line.
pub proof fn law_shared_part_has_the_slope(s: Component, p: Coord, q: Coord)
    requires
        (p.y.value() - s.line.start.y.value()) * pow2(1074) == s.slope.value() * (p.x.value()
            - s.line.start.x.value()),
        (q.y.value() - s.line.start.y.value()) * pow2(1074) == s.slope.value() * (q.x.value()
            - s.line.start.x.value()),
    ensures
        (q.y.value() - p.y.value()) * pow2(1074) == s.slope.value() * (q.x.value() - p.x.value()),
{
    let unit = pow2(1074) as int;
    let m = s.slope.value();
    let (x0, y0) = (s.line.start.x.value(), s.line.start.y.value());
    let (px, py, qx, qy) = (p.x.value(), p.y.value(), q.x.value(), q.y.value());
    assert((qy - py) * unit == m * (qx - px)) by (nonlinear_arith)
        requires
            (py - y0) * unit == m * (px - x0),
            (qy - y0) * unit == m * (qx - x0),
    ;
}

/// Two points have the same coordinates.
pub open spec fn same_point(p: Coord, q: Coord) -> bool {
    p.x.value() == q.x.value() && p.y.value() == q.y.value()
}

/// Solving the equation of a line at its own ends rounds nothing.
pub open spec fn solved_exactly(s: Component) -> bool {
    let w = s.slope.times(s.line.start.x);
    let b = s.line.start.y.plus(w.negated());
    &&& exact_product(s.slope, s.line.start.x)
    &&& exact_sum(s.line.start.y, w.negated())
    &&& lies_flat(s) ==> forall|v: Double|
        !v.nan() && (v.value() == s.line.start.x.value() || v.value() == s.line.end.x.value())
            ==> #[trigger] exact_product(s.slope, v) && exact_sum(s.slope.times(v), b)
    &&& !lies_flat(s) ==> forall|v: Double|
        !v.nan() && (v.value() == s.line.start.y.value() || v.value() == s.line.end.y.value())
            ==> #[trigger] exact_sum(v, b.negated()) && exact_quotient(v.plus(b.negated()), s.slope)
}

/// A source line that faces a target over its whole extent shares all of itself, from one of its own
/// ends to the other, where nothing is rounded.
pub proof fn law_whole_line_is_shared(s: Component, t: Component)
    requires
        finite_line(s.line),
        numeric_line(t.line),
        s.slope.finite(),
        !s.slope.zero(),
        // The slope is that of the line.
        (s.line.end.y.value() - s.line.start.y.value()) * pow2(1074) == s.slope.value() * (
        s.line.end.x.value() - s.line.start.x.value()),
        // The target reaches as far as the source.
        lies_flat(s) ==> between(s.line.start.x, t.line.start.x, t.line.end.x) && between(
            s.line.end.x,
            t.line.start.x,
            t.line.end.x,
        ),
        !lies_flat(s) ==> between(s.line.start.y, t.line.start.y, t.line.end.y) && between(
            s.line.end.y,
            t.line.start.y,
            t.line.end.y,
        ),
        // Nothing is rounded at the ends of the line.
        solved_exactly(s),
    ensures
        shared_part(s, t) matches Some(ends) && {
            ||| same_point(ends.0, s.line.start) && same_point(ends.1, s.line.end)
            ||| same_point(ends.0, s.line.end) && same_point(ends.1, s.line.start)
        },
{
    law_shared_part_is_what_is_crossed(s, t, s.line.start.x);
    law_shared_part_is_what_is_crossed(s, t, s.line.end.x);
    law_shared_part_is_what_is_crossed(s, t, s.line.start.y);
    law_shared_part_is_what_is_crossed(s, t, s.line.end.y);
    assert(shared_part(s, t) is Some);
    let ends = shared_part(s, t)->0;
    let (a, b) = (s.line.start, s.line.end);
    lemma_magnitude_ordered(s.slope.pattern(), 0);
    lemma_finite_value(ends.0.x, a.x, b.x);
    lemma_finite_value(ends.1.x, a.x, b.x);
    lemma_finite_value(ends.0.y, a.y, b.y);
    lemma_finite_value(ends.1.y, a.y, b.y);
    law_shared_ends_lie_on_line(s, t, true);
    law_shared_ends_lie_on_line(s, t, false);
    let w = s.slope.times(a.x);
    let c = a.y.plus(w.negated());
    if lies_flat(s) {
        assert(exact_product(s.slope, ends.0.x) && exact_product(s.slope, ends.1.x));
    } else {
        assert(exact_sum(ends.0.y, c.negated()) && exact_sum(ends.1.y, c.negated()));
    }
    lemma_pow2_pos(1074);
    lemma_on_line_alike(s, ends.0, s.line.start);
    lemma_on_line_alike(s, ends.0, s.line.end);
    lemma_on_line_alike(s, ends.1, s.line.start);
    lemma_on_line_alike(s, ends.1, s.line.end);
}

/// A number with the value of a finite one is finite.
proof fn lemma_finite_value(v: Double, a: Double, b: Double)
    requires
        a.finite(),
        b.finite(),
    ensures
        !v.nan() && (v.value() == a.value() || v.value() == b.value()) ==> v.finite(),
{
    lemma_magnitude_ordered(v.pattern(), INFINITE as int);
    lemma_magnitude_ordered(a.pattern(), INFINITE as int);
    lemma_magnitude_ordered(b.pattern(), INFINITE as int);
    lemma_magnitude_ordered(INFINITE as int, 0);
}

/// Two points on a line that is neither level nor vertical are the same where one coordinate is.
proof fn lemma_on_line_alike(s: Component, p: Coord, q: Coord)
    requires
        s.slope.value() != 0,
        pow2(1074) > 0,
        (p.y.value() - s.line.start.y.value()) * pow2(1074) == s.slope.value() * (p.x.value()
            - s.line.start.x.value()),
        (q.y.value() - s.line.start.y.value()) * pow2(1074) == s.slope.value() * (q.x.value()
            - s.line.start.x.value()),
    ensures
        p.x.value() == q.x.value() <==> p.y.value() == q.y.value(),
{
    law_shared_part_has_the_slope(s, p, q);
    let unit = pow2(1074) as int;
    let m = s.slope.value();
    let dx = q.x.value() - p.x.value();
    let dy = q.y.value() - p.y.value();
    assert(dx == 0 <==> dy == 0) by (nonlinear_arith)
        requires
            dy * unit == m * dx,
            m != 0,
            unit > 0,
    ;
}

/// The map of matches holds, for each target, the candidates of its list.
pub proof fn law_contents(matches: MatchesMap, target: usize)
    ensures
        contents(matches).contains_key(target) <==> matches@.contains_key(target),
        matches@.contains_key(target) ==> contents(matches)[target] == matches@[target]@,
{
}

/// The candidates that are held for a target, none where it has no entry.
pub open spec fn held(matches: Map<usize, Seq<MatchCandidate>>, target: usize) -> Seq<
    MatchCandidate,
> {
    if matches.contains_key(target) {
        matches[target]
    } else {
        Seq::empty()
    }
}

/// A source stands at position `k` of a list, and not before.
pub open spec fn first_at(list: Seq<MatchCandidate>, source: usize, k: int) -> bool {
    &&& 0 <= k < list.len()
    &&& list[k].source_index == source
    &&& forall|j: int| 0 <= j < k ==> (#[trigger] list[j]).source_index != source
}

/// Entering a length keeps the matches of every other target and the lengths of all other sources, in
/// their order; the source gets the length added where it is first listed, or is listed last with
/// it.
pub proof fn law_entering(
    matches: Map<usize, Seq<MatchCandidate>>,
    target: usize,
    source: usize,
    length: Double,
    other: usize,
    k: int,
)
    ensures
        ({
            let before = held(matches, target);
            let after = held(entered(matches, target, source, length), target);
            &&& entered(matches, target, source, length).contains_key(target)
            &&& other != target ==> {
                &&& held(entered(matches, target, source, length), other) == held(matches, other)
                &&& entered(matches, target, source, length).contains_key(other)
                    <==> matches.contains_key(other)
            }
            &&& first_at(before, source, k) ==> {
                &&& after.len() == before.len()
                &&& after[k].source_index == source
                &&& after[k].shared_len == before[k].shared_len.plus(length)
                &&& forall|j: int|
                    0 <= j < before.len() && j != k ==> #[trigger] after[j] == before[j]
            }
            &&& (forall|j: int|
                0 <= j < before.len() ==> (#[trigger] before[j]).source_index != source) ==> {
                &&& after.len() == before.len() + 1
                &&& after[before.len() as int].source_index == source
                &&& after[before.len() as int].shared_len == length
                &&& forall|j: int| 0 <= j < before.len() ==> #[trigger] after[j] == before[j]
            }
        }),
{
    let before = held(matches, target);
    assert(listed(matches, target) =~= before);
    if first_at(before, source, k) {
        assert(crate::matches::is_place(before, source, k));
        lemma_place(before, source, k);
    }
    if forall|j: int| 0 <= j < before.len() ==> (#[trigger] before[j]).source_index != source {
        assert(crate::matches::is_place(before, source, before.len() as int));
        lemma_place(before, source, before.len() as int);
    }
}

/// A pair of lines is entered, with the length that was measured, exactly where the lines are
/// compared and their measured distance is a number not above the tolerance; else the matches stay
/// as they are.
pub proof fn law_judging(
    matches: Map<usize, Seq<MatchCandidate>>,
    s: Component,
    t: Component,
    seen: Measured,
    angle_tolerance: Double,
    distance_tolerance: Double,
)
    ensures
        judged(matches, s, t, seen, angle_tolerance, distance_tolerance) == if comparable(
            s,
            t,
            angle_tolerance,
        ) && !seen.distance.nan() && !distance_tolerance.nan() && seen.distance.value()
            <= distance_tolerance.value() {
            entered(matches, t.index, s.index, seen.shared_len)
        } else {
            matches
        },
{
}

/// Geometries and tolerances that are the same are so field by field.
pub proof fn law_same_input(a: Anime, b: Anime)
    requires
        a.same_input(&b),
    ensures
        a.distance_tolerance == b.distance_tolerance,
        a.angle_tolerance == b.angle_tolerance,
        a.source_tree == b.source_tree,
        a.source_lens == b.source_lens,
        a.target_tree == b.target_tree,
        a.target_lens == b.target_lens,
{
}

/// Copied matches are listed alike, target by target.
pub proof fn law_same_matches(a: Matches, b: Matches, target: usize)
    requires
        a.same_matches(&b),
    ensures
        a.found is Some <==> b.found is Some,
        a.found is Some ==> (contents(a.found->0).contains_key(target) <==> contents(
            b.found->0,
        ).contains_key(target)),
        a.found is Some && contents(a.found->0).contains_key(target) ==> contents(
            a.found->0,
        )[target] == contents(b.found->0)[target],
{
}

/// The line from point `k` to the next, with its slope and angle.
pub open spec fn piece(g: LineString, k: int) -> Component {
    let line = Line { start: g.coords@[k], end: g.coords@[k + 1] };
    Component {
        index: 0,
        line,
        slope: line.end.y.minus(line.start.y).over(line.end.x.minus(line.start.x)),
        degrees: g.degrees@[k],
    }
}

/// Line `k` of a source and line `l` of a target have similar directions, are both crossed by some
/// vertical or horizontal line, and lie within the distance tolerance.
pub open spec fn meant_to_match(
    s: LineString,
    t: LineString,
    k: int,
    l: int,
    distance_tolerance: Double,
    angle_tolerance: Double,
    measure: spec_fn(Line, Line) -> Double,
) -> bool {
    &&& 0 <= k && k + 1 < s.coords@.len()
    &&& 0 <= l && l + 1 < t.coords@.len()
    &&& tolerant(piece(s, k), piece(t, l), angle_tolerance)
    &&& exists|v: Double|
        (#[trigger] crossed_at_x(v, piece(s, k).line, piece(t, l).line)) || crossed_at_y(
            v,
            piece(s, k).line,
            piece(t, l).line,
        )
    &&& !measure(piece(t, l).line, piece(s, k).line).nan()
    &&& !distance_tolerance.nan()
    &&& measure(piece(t, l).line, piece(s, k).line).value() <= distance_tolerance.value()
}

/// Two lines of finite geometries match, near or not, exactly where they are meant to: a distance is
/// not smaller than the gaps between the lines, so that lines within the tolerance are near.
proof fn lemma_pair_as_meant(
    s: LineString,
    t: LineString,
    k: int,
    l: int,
    distance_tolerance: Double,
    angle_tolerance: Double,
    measure: spec_fn(Line, Line) -> Double,
)
    requires
        crate::geometry::all_finite(s.coords@),
        crate::geometry::all_finite(t.coords@),
        distance_tolerance.finite(),
        forall|a: Line, b: Line|
            finite_line(a) && finite_line(b) && !(#[trigger] measure(a, b)).nan() ==> gaps_within(
                b,
                a,
                measure(a, b).value(),
            ),
    ensures
        pair_matches(
            s,
            t,
            k,
            l,
            distance_tolerance,
            angle_tolerance,
            distance_tolerance,
            measure,
        ) <==> meant_to_match(
            s,
            t,
            k,
            l,
            distance_tolerance,
            angle_tolerance,
            measure,
        ),
{
    reveal(pair_matches);
    if 0 <= k && k + 1 < s.coords@.len() && 0 <= l && l + 1 < t.coords@.len() {
        let (a, b) = (piece(s, k), piece(t, l));
        assert(components_of(s, 0)[k] == a);
        assert(components_of(t, 0)[l] == b);
        assert(s.coords@[k].finite() && s.coords@[k + 1].finite());
        assert(t.coords@[l].finite() && t.coords@[l + 1].finite());
        law_what_is_compared(a, b, angle_tolerance);
        let d = measure(b.line, a.line);
        if !d.nan() && d.value() <= distance_tolerance.value() {
            assert(gaps_within(a.line, b.line, d.value()));
            law_bounds_span_ends(a.line);
            law_bounds_span_ends(b.line);
            law_reach_covers_gaps(a, b, distance_tolerance);
        }
    }
}

/// What a search is for: of finite geometries it lists a source for a target exactly where one of
/// the lines of the one and one of the lines of the other have directions that differ by less than
/// the angle tolerance, are both crossed by a vertical or a horizontal line, and are not farther
/// apart than the distance tolerance.
pub proof fn law_search_finds_what_is_meant<D, P>(
    a: Anime,
    source: Seq<LineString>,
    target: Seq<LineString>,
    distance_tolerance: Double,
    angle_tolerance: Double,
    line_distance: D,
    point_distance: P,
    found: MatchesMap,
    measure: spec_fn(Line, Line) -> Double,
    i: usize,
    j: usize,
) where D: Fn(&Line, &Line) -> Double, P: Fn(&Coord, &Coord) -> Double
    requires
        a.loaded_from(source, target, distance_tolerance, angle_tolerance),
        a.can_find(line_distance, point_distance, found),
        distance_tolerance.finite(),
        forall|m: int|
            0 <= m < source.len() ==> crate::geometry::all_finite((#[trigger] source[m]).coords@),
        forall|m: int|
            0 <= m < target.len() ==> crate::geometry::all_finite((#[trigger] target[m]).coords@),
        forall|a: &Line, b: &Line, d: Double| #[trigger]
            call_ensures(line_distance, (a, b), d) ==> d == measure(*a, *b),
        forall|a: Line, b: Line|
            finite_line(a) && finite_line(b) && !(#[trigger] measure(a, b)).nan() ==> gaps_within(
                b,
                a,
                measure(a, b).value(),
            ),
    ensures
        is_matched(contents(found), j, i) <==> i < source.len() && j < target.len() && exists|
            k: int,
            l: int,
        | #[trigger]
            meant_to_match(
                source[i as int],
                target[j as int],
                k,
                l,
                distance_tolerance,
                angle_tolerance,
                measure,
            ),
{
    crate::search_laws::lemma_limits(a, source, target, distance_tolerance, angle_tolerance);
    law_found_where_geometries_match(
        source,
        target,
        distance_tolerance,
        angle_tolerance,
        distance_tolerance,
        line_distance,
        point_distance,
        contents(found),
        measure,
        i,
        j,
    );
    if i < source.len() && j < target.len() {
        let (s, t) = (source[i as int], target[j as int]);
        assert(crate::geometry::all_finite(s.coords@) && crate::geometry::all_finite(t.coords@));
        assert forall|k: int, l: int| #[trigger]
            pair_matches(
                s,
                t,
                k,
                l,
                distance_tolerance,
                angle_tolerance,
                distance_tolerance,
                measure,
            ) <==> meant_to_match(
                s,
                t,
                k,
                l,
                distance_tolerance,
                angle_tolerance,
                measure,
            ) by {
            lemma_pair_as_meant(s, t, k, l, distance_tolerance, angle_tolerance, measure);
        }
        if geometries_match(
            s,
            t,
            distance_tolerance,
            angle_tolerance,
            distance_tolerance,
            measure,
        ) {
            let (k, l) = choose|k: int, l: int| #[trigger]
                pair_matches(
                    s,
                    t,
                    k,
                    l,
                    distance_tolerance,
                    angle_tolerance,
                    distance_tolerance,
                    measure,
                );
            assert(meant_to_match(
                s,
                t,
                k,
                l,
                distance_tolerance,
                angle_tolerance,
                measure,
            ));
        }
        if exists|k: int, l: int| #[trigger]
            meant_to_match(s, t, k, l, distance_tolerance, angle_tolerance, measure) {
            let (k, l) = choose|k: int, l: int| #[trigger]
                meant_to_match(s, t, k, l, distance_tolerance, angle_tolerance, measure);
            assert(pair_matches(
                s,
                t,
                k,
                l,
                distance_tolerance,
                angle_tolerance,
                distance_tolerance,
                measure,
            ));
        }
    }
}

} // verus!
