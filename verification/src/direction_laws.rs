//! In which direction a line is drawn does not decide whether it matches.
use crate::anime::all_wf;
use crate::double::{lemma_rank_orders, Double};
use crate::geometry::{is_angle, line_count, Coord, Line, LineString, QUARTER_TURN};
use crate::laws::{
    geometries_match, is_matched, law_found_where_geometries_match, lemma_quarter_turns,
    lines_match, pair_matches, THREE_QUARTERS,
};
use crate::matches::{comparable, matches_found, normalized, MatchCandidate, HALF_TURN};
use crate::overlap::common;
use crate::rounding::{lemma_magnitude_ordered, lemma_nearest_exact, magnitude};
use crate::search_laws::{law_compared_lines_have_slopes, law_slope_of_numbers};
use crate::tree::{components_in, components_of, lengths_of, near, target_entry, Component};
use std::ops::Range;
use vstd::prelude::*;

verus! {

/// The line from the end to the start.
pub open spec fn turned(line: Line) -> Line {
    Line { start: line.end, end: line.start }
}

/// Two differences are each other's opposites, or both are zero, or neither is a number.
spec fn opposite(a: Double, b: Double) -> bool {
    ||| a.nan() && b.nan()
    ||| a.zero() && b.zero()
    ||| a.pattern() == b.pattern() && a.negative() != b.negative() && !a.nan() && !a.zero()
}

proof fn lemma_opposite_differences(a: Double, b: Double)
    requires
        !a.nan(),
        !b.nan(),
    ensures
        opposite(a.minus(b), b.minus(a)),
{
    assert(a.negated().pattern() == a.pattern() && a.negated().negative() != a.negative());
    assert(b.negated().pattern() == b.pattern() && b.negated().negative() != b.negative());
    if a.finite() && b.finite() {
        let s = a.value() - b.value();
        if s != 0 {
            crate::rounding::lemma_nearest_exists(if s < 0 { -s } else { s }, 1);
        }
    }
}

/// The slope of a turned line is the same, but for the sign where it is zero or infinite.
pub proof fn law_turned_slope(line: Line)
    requires
        line.start.numeric(),
        line.end.numeric(),
    ensures
        ({
            let (a, b) = (line.inclination(), turned(line).inclination());
            a == b || (a.zero() && b.zero()) || (a.infinite() && b.infinite())
        }),
{
    let (dx, ex) = (line.end.x.minus(line.start.x), line.start.x.minus(line.end.x));
    let (dy, ey) = (line.end.y.minus(line.start.y), line.start.y.minus(line.end.y));
    lemma_opposite_differences(line.end.x, line.start.x);
    lemma_opposite_differences(line.end.y, line.start.y);
    lemma_magnitude_ordered(dx.pattern(), 0);
    lemma_magnitude_ordered(0, 0);
    if dy.zero() && dx.finite() && !dx.zero() {
        let den = dx.size();
        lemma_nearest_exact(0, den);
        let unit = vstd::arithmetic::power2::pow2(1074) as int;
        assert(magnitude(0) * den == 0 && dy.size() * unit == 0 && ey.size() * unit == 0)
            by (nonlinear_arith)
            requires
                magnitude(0) == 0,
                dy.size() == 0,
                ey.size() == 0,
        ;
    }
}

/// A quarter-turn to either side is the same direction.
proof fn lemma_quarter_turns_agree(a: Double, b: Double)
    requires
        a.pattern() == QUARTER_TURN,
        b.pattern() == QUARTER_TURN,
    ensures
        normalized(a) == normalized(b),
{
    let half = Double { bits: HALF_TURN };
    let quarter = QUARTER_TURN as int;
    lemma_quarter_turns();
    lemma_nearest_exact(quarter, 1);
    lemma_nearest_exact(THREE_QUARTERS as int, 1);
    let q = magnitude(quarter);
    assert(a.size() == q && half.size() == 2 * q);
    vstd::arithmetic::div_mod::lemma_small_mod(q as nat, (2 * q) as nat);
    vstd::arithmetic::div_mod::lemma_mod_add_multiples_vanish(q, 2 * q);
    assert((3 * q) % (2 * q) == q);
    assert(normalized(a) == Double::signed(false, quarter));
    assert(normalized(b) == Double::signed(false, quarter));
}

/// A turned line has the same direction.
proof fn lemma_turned_angle(line: Line, angle: spec_fn(Double) -> Double)
    requires
        line.start.numeric(),
        line.end.numeric(),
        forall|slope: Double| is_angle(slope, #[trigger] angle(slope)),
    ensures
        normalized(angle(line.inclination())) == normalized(angle(turned(line).inclination())),
{
    let (a, b) = (line.inclination(), turned(line).inclination());
    law_turned_slope(line);
    assert(is_angle(a, angle(a)) && is_angle(b, angle(b)));
    if a.zero() && b.zero() {
        assert(angle(a).value() == 0 && angle(b).value() == 0);
    } else if a.infinite() && b.infinite() {
        lemma_quarter_turns_agree(angle(a), angle(b));
    }
}

/// Two numbers are the same but for the sign of a zero.
spec fn alike(a: Double, b: Double) -> bool {
    !a.nan() && !b.nan() && a.rank() == b.rank()
}

proof fn lemma_alike_sum(a: Double, b: Double, c: Double)
    requires
        alike(a, b),
    ensures
        a.plus(c).rank() == b.plus(c).rank(),
{
    lemma_magnitude_ordered(0, 0);
    if a.pattern() != 0 {
        assert(a == b);
    }
}

/// The bounds of a turned line are the same but for the signs of zeros.
proof fn lemma_turned_bounds(line: Line)
    requires
        line.start.numeric(),
        line.end.numeric(),
    ensures
        ({
            let (a, b) = (line.bounds(), turned(line).bounds());
            &&& alike(a.min.x, b.min.x)
            &&& alike(a.max.x, b.max.x)
            &&& alike(a.min.y, b.min.y)
            &&& alike(a.max.y, b.max.y)
        }),
{
    lemma_rank_orders(line.start.x, line.end.x);
    lemma_rank_orders(line.end.x, line.start.x);
    lemma_rank_orders(line.start.y, line.end.y);
    lemma_rank_orders(line.end.y, line.start.y);
}

proof fn lemma_alike_ranges(
    a: Range<Double>,
    b: Range<Double>,
    a2: Range<Double>,
    b2: Range<Double>,
)
    requires
        alike(a.start, a2.start),
        alike(a.end, a2.end),
        alike(b.start, b2.start),
        alike(b.end, b2.end),
    ensures
        common(a, b) is Some <==> common(a2, b2) is Some,
{
    lemma_rank_orders(a.start, a2.start);
    lemma_rank_orders(a.end, a2.end);
    lemma_rank_orders(b.start, b2.start);
    lemma_rank_orders(b.end, b2.end);
}

/// A line as it is or turned, with its slope and the angle of this slope.
pub open spec fn drawn(c: Component, line: Line, angle: spec_fn(Double) -> Double) -> bool {
    &&& c.line == line || c.line == turned(line)
    &&& c.slope == c.line.inclination()
    &&& c.degrees == angle(c.slope)
}

/// What is alike of a line, however it is drawn.
proof fn lemma_drawn(c: Component, line: Line, angle: spec_fn(Double) -> Double)
    requires
        line.start.numeric(),
        line.end.numeric(),
        forall|slope: Double| is_angle(slope, #[trigger] angle(slope)),
        drawn(c, line, angle),
    ensures
        normalized(c.degrees) == normalized(angle(line.inclination())),
        alike(c.line.bounds().min.x, line.bounds().min.x),
        alike(c.line.bounds().max.x, line.bounds().max.x),
        alike(c.line.bounds().min.y, line.bounds().min.y),
        alike(c.line.bounds().max.y, line.bounds().max.y),
{
    lemma_turned_angle(line, angle);
    lemma_turned_bounds(line);
    lemma_turned_bounds(turned(line));
    assert(turned(turned(line)) == line);
}

/// The boxes of the same lines, however they are drawn, meet alike.
proof fn lemma_drawn_near(
    s: Component,
    t: Component,
    s2: Component,
    t2: Component,
    reach: Double,
)
    requires
        s.line == s2.line || s.line == turned(s2.line),
        alike(t.line.bounds().min.x, t2.line.bounds().min.x),
        alike(t.line.bounds().max.x, t2.line.bounds().max.x),
        alike(t.line.bounds().min.y, t2.line.bounds().min.y),
        alike(t.line.bounds().max.y, t2.line.bounds().max.y),
    ensures
        near(s, t, reach) == near(s2, t2, reach),
{
    let (a, b) = (t.line.bounds(), t2.line.bounds());
    lemma_alike_sum(a.min.x, b.min.x, reach.negated());
    lemma_alike_sum(a.min.y, b.min.y, reach.negated());
    lemma_alike_sum(a.max.x, b.max.x, reach);
    lemma_alike_sum(a.max.y, b.max.y, reach);
    assert(target_entry(t, reach, 0) == target_entry(t2, reach, 0));
}

/// The same lines, however they are drawn, are compared alike.
proof fn lemma_drawn_comparable(
    s: Component,
    t: Component,
    s2: Component,
    t2: Component,
    angle_tolerance: Double,
)
    requires
        normalized(s.degrees) == normalized(s2.degrees),
        normalized(t.degrees) == normalized(t2.degrees),
        alike(s.line.bounds().min.x, s2.line.bounds().min.x),
        alike(s.line.bounds().max.x, s2.line.bounds().max.x),
        alike(s.line.bounds().min.y, s2.line.bounds().min.y),
        alike(s.line.bounds().max.y, s2.line.bounds().max.y),
        alike(t.line.bounds().min.x, t2.line.bounds().min.x),
        alike(t.line.bounds().max.x, t2.line.bounds().max.x),
        alike(t.line.bounds().min.y, t2.line.bounds().min.y),
        alike(t.line.bounds().max.y, t2.line.bounds().max.y),
    ensures
        comparable(s, t, angle_tolerance) == comparable(s2, t2, angle_tolerance),
{
    let (a, b, c, d) = (s.line.bounds(), t.line.bounds(), s2.line.bounds(), t2.line.bounds());
    lemma_alike_ranges(
        Range { start: a.min.x, end: a.max.x },
        Range { start: b.min.x, end: b.max.x },
        Range { start: c.min.x, end: c.max.x },
        Range { start: d.min.x, end: d.max.x },
    );
    lemma_alike_ranges(
        Range { start: a.min.y, end: a.max.y },
        Range { start: b.min.y, end: b.max.y },
        Range { start: c.min.y, end: c.max.y },
        Range { start: d.min.y, end: d.max.y },
    );
}

/// Two lines match however they are drawn, by a distance that does not depend on it either.
pub proof fn law_drawn_lines_match(
    s: Component,
    t: Component,
    s2: Component,
    t2: Component,
    reach: Double,
    angle_tolerance: Double,
    distance_tolerance: Double,
    measure: spec_fn(Line, Line) -> Double,
    angle: spec_fn(Double) -> Double,
)
    requires
        s.line.start.numeric(),
        s.line.end.numeric(),
        t.line.start.numeric(),
        t.line.end.numeric(),
        forall|slope: Double| is_angle(slope, #[trigger] angle(slope)),
        drawn(s, s.line, angle),
        drawn(t, t.line, angle),
        drawn(s2, s.line, angle),
        drawn(t2, t.line, angle),
        forall|a: Line, b: Line| #[trigger] measure(turned(a), b) == measure(a, b),
        forall|a: Line, b: Line| #[trigger] measure(a, turned(b)) == measure(a, b),
    ensures
        lines_match(s, t, reach, angle_tolerance, distance_tolerance, measure) == lines_match(
            s2,
            t2,
            reach,
            angle_tolerance,
            distance_tolerance,
            measure,
        ),
{
    lemma_drawn(s, s.line, angle);
    lemma_drawn(t, t.line, angle);
    lemma_drawn(s2, s.line, angle);
    lemma_drawn(t2, t.line, angle);
    lemma_drawn_near(s, t, s2, t2, reach);
    lemma_drawn_comparable(s, t, s2, t2, angle_tolerance);
    assert(measure(turned(t.line), s2.line) == measure(t.line, s2.line));
    assert(measure(t.line, turned(s.line)) == measure(t.line, s.line));
}

/// The same points in the same or the opposite order, and the same length.
pub open spec fn redrawn(g: LineString, g2: LineString) -> bool {
    &&& g2.coords@ == g.coords@ || g2.coords@ == g.coords@.reverse()
    &&& g2.length == g.length
}

/// Every line has the angle of its slope.
pub open spec fn angled_by(g: LineString, angle: spec_fn(Double) -> Double) -> bool {
    forall|k: int|
        0 <= k < g.degrees@.len() ==> #[trigger] g.degrees@[k] == angle(g.line(k).inclination())
}

/// Where a line of a line string is among those of the redrawn one.
spec fn redrawn_place(g: LineString, g2: LineString, k: int) -> int {
    if g2.coords@ == g.coords@ {
        k
    } else {
        g.coords@.len() - 2 - k
    }
}

proof fn lemma_redrawn_line(
    g: LineString,
    g2: LineString,
    angle: spec_fn(Double) -> Double,
    k: int,
)
    requires
        g.wf(),
        g2.wf(),
        redrawn(g, g2),
        angled_by(g, angle),
        angled_by(g2, angle),
        0 <= k < line_count(g.coords@.len() as int),
    ensures
        ({
            let m = redrawn_place(g, g2, k);
            let line = g.line(k);
            &&& 0 <= m < line_count(g2.coords@.len() as int)
            &&& drawn(components_of(g, 0)[k], line, angle)
            &&& drawn(components_of(g2, 0)[m], line, angle)
        }),
{
    let m = redrawn_place(g, g2, k);
    assert(g.degrees@[k] == angle(g.line(k).inclination()));
    assert(g2.degrees@[m] == angle(g2.line(m).inclination()));
}

/// Redrawn line strings match where the line strings do.
proof fn lemma_redrawn_match(
    s: LineString,
    t: LineString,
    s2: LineString,
    t2: LineString,
    reach: Double,
    angle_tolerance: Double,
    distance_tolerance: Double,
    measure: spec_fn(Line, Line) -> Double,
    angle: spec_fn(Double) -> Double,
)
    requires
        s.wf(),
        t.wf(),
        s2.wf(),
        t2.wf(),
        redrawn(s, s2),
        redrawn(t, t2),
        angled_by(s, angle),
        angled_by(t, angle),
        angled_by(s2, angle),
        angled_by(t2, angle),
        forall|slope: Double| is_angle(slope, #[trigger] angle(slope)),
        forall|a: Line, b: Line| #[trigger] measure(turned(a), b) == measure(a, b),
        forall|a: Line, b: Line| #[trigger] measure(a, turned(b)) == measure(a, b),
        geometries_match(s, t, reach, angle_tolerance, distance_tolerance, measure),
    ensures
        geometries_match(s2, t2, reach, angle_tolerance, distance_tolerance, measure),
{
    reveal(pair_matches);
    let (k, l) = choose|k: int, l: int| #[trigger]
        pair_matches(s, t, k, l, reach, angle_tolerance, distance_tolerance, measure);
    let (m, n) = (redrawn_place(s, s2, k), redrawn_place(t, t2, l));
    lemma_redrawn_line(s, s2, angle, k);
    lemma_redrawn_line(t, t2, angle, l);
    // Lines that match have slopes, and lines with slopes have numbers for coordinates.
    assert(is_angle(s.line(k).inclination(), s.degrees@[k]));
    assert(is_angle(t.line(l).inclination(), t.degrees@[l]));
    law_compared_lines_have_slopes(
        components_of(s, 0)[k],
        components_of(t, 0)[l],
        angle_tolerance,
    );
    law_slope_of_numbers(s.line(k));
    law_slope_of_numbers(t.line(l));
    law_drawn_lines_match(
        components_of(s, 0)[k],
        components_of(t, 0)[l],
        components_of(s2, 0)[m],
        components_of(t2, 0)[n],
        reach,
        angle_tolerance,
        distance_tolerance,
        measure,
        angle,
    );
    assert(pair_matches(s2, t2, m, n, reach, angle_tolerance, distance_tolerance, measure));
}

/// The direction in which line strings are drawn does not decide which of them match, by an angle
/// that depends on the slope alone and a distance of lines that does not depend on their
/// directions; their lengths are listed alike.
pub proof fn law_direction_does_not_decide<D, P>(
    source: Seq<LineString>,
    target: Seq<LineString>,
    source2: Seq<LineString>,
    target2: Seq<LineString>,
    reach: Double,
    angle_tolerance: Double,
    distance_tolerance: Double,
    line_distance: D,
    point_distance: P,
    found: Map<usize, Seq<MatchCandidate>>,
    found2: Map<usize, Seq<MatchCandidate>>,
    measure: spec_fn(Line, Line) -> Double,
    angle: spec_fn(Double) -> Double,
    i: usize,
    j: usize,
) where D: Fn(&Line, &Line) -> Double, P: Fn(&Coord, &Coord) -> Double
    requires
        source.len() <= usize::MAX,
        components_in(source).len() <= usize::MAX,
        target.len() <= usize::MAX,
        components_in(target).len() <= usize::MAX,
        source2.len() <= usize::MAX,
        components_in(source2).len() <= usize::MAX,
        target2.len() <= usize::MAX,
        components_in(target2).len() <= usize::MAX,
        all_wf(source),
        all_wf(target),
        all_wf(source2),
        all_wf(target2),
        source2.len() == source.len(),
        target2.len() == target.len(),
        forall|m: int| 0 <= m < source.len() ==> redrawn(#[trigger] source[m], source2[m]),
        forall|m: int| 0 <= m < target.len() ==> redrawn(#[trigger] target[m], target2[m]),
        forall|m: int| 0 <= m < source.len() ==> angled_by(#[trigger] source[m], angle),
        forall|m: int| 0 <= m < target.len() ==> angled_by(#[trigger] target[m], angle),
        forall|m: int| 0 <= m < source2.len() ==> angled_by(#[trigger] source2[m], angle),
        forall|m: int| 0 <= m < target2.len() ==> angled_by(#[trigger] target2[m], angle),
        forall|slope: Double| is_angle(slope, #[trigger] angle(slope)),
        forall|a: Line, b: Line| #[trigger] measure(turned(a), b) == measure(a, b),
        forall|a: Line, b: Line| #[trigger] measure(a, turned(b)) == measure(a, b),
        matches_found(
            components_in(source),
            components_in(target),
            reach,
            angle_tolerance,
            distance_tolerance,
            line_distance,
            point_distance,
            found,
        ),
        matches_found(
            components_in(source2),
            components_in(target2),
            reach,
            angle_tolerance,
            distance_tolerance,
            line_distance,
            point_distance,
            found2,
        ),
        forall|a: &Line, b: &Line, d: Double| #[trigger]
            call_ensures(line_distance, (a, b), d) ==> d == measure(*a, *b),
    ensures
        lengths_of(source2) == lengths_of(source),
        lengths_of(target2) == lengths_of(target),
        is_matched(found, j, i) <==> is_matched(found2, j, i),
{
    assert forall|m: int| 0 <= m < source.len() implies (#[trigger] source2[m]).length
        == source[m].length by {
        assert(redrawn(source[m], source2[m]));
    }
    assert forall|m: int| 0 <= m < target.len() implies (#[trigger] target2[m]).length
        == target[m].length by {
        assert(redrawn(target[m], target2[m]));
    }
    assert(lengths_of(source2) =~= lengths_of(source));
    assert(lengths_of(target2) =~= lengths_of(target));
    law_found_where_geometries_match(
        source,
        target,
        reach,
        angle_tolerance,
        distance_tolerance,
        line_distance,
        point_distance,
        found,
        measure,
        i,
        j,
    );
    law_found_where_geometries_match(
        source2,
        target2,
        reach,
        angle_tolerance,
        distance_tolerance,
        line_distance,
        point_distance,
        found2,
        measure,
        i,
        j,
    );
    if i < source.len() && j < target.len() {
        let (s, t) = (source[i as int], target[j as int]);
        let (s2, t2) = (source2[i as int], target2[j as int]);
        assert(s.wf() && t.wf() && s2.wf() && t2.wf());
        assert(redrawn(s, s2) && redrawn(t, t2));
        assert(s.coords@.reverse().reverse() =~= s.coords@);
        assert(t.coords@.reverse().reverse() =~= t.coords@);
        assert(redrawn(s2, s) && redrawn(t2, t));
        if geometries_match(s, t, reach, angle_tolerance, distance_tolerance, measure) {
            lemma_redrawn_match(
                s,
                t,
                s2,
                t2,
                reach,
                angle_tolerance,
                distance_tolerance,
                measure,
                angle,
            );
        }
        if geometries_match(s2, t2, reach, angle_tolerance, distance_tolerance, measure) {
            lemma_redrawn_match(
                s2,
                t2,
                s,
                t,
                reach,
                angle_tolerance,
                distance_tolerance,
                measure,
                angle,
            );
        }
    }
}

} // verus!
