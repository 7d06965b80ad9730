//! What holds of the library as a whole.
use crate::double::{lemma_rank_orders, lemma_remainder, Double};
use crate::geometry::{is_length, line_count, Coord, Line, LineString, QUARTER_TURN};
use crate::matches::{
    comparable, credited, lemma_has_place, lemma_search_behind, listed, matches_found, measured_by,
    normalized, place, shared_part, tally, tolerant, y_overlap, MatchCandidate, Measured,
    HALF_TURN,
};
use crate::overlap::{common, intercept, point_at_x, point_at_y};
use crate::py_anime::{lemma_spread_len, row, rows_for, rows_of, spread, InterpolatedValue};
use crate::rounding::{
    lemma_magnitude_ordered, lemma_magnitude_parts, lemma_magnitude_shape, lemma_nearest_exact,
    lemma_nearest_exists, lemma_rounding_monotonic, magnitude, nearest, significand, step,
    FRACTION, INFINITE,
};
use crate::tree::{components_in, components_of, near, Component, TarLine};
use std::ops::Range;
use vstd::arithmetic::power2::{lemma_pow2_unfold, pow2};
use vstd::prelude::*;

verus! {

/// A sum does not depend on the order of its terms.
pub proof fn law_sum_commutes(a: Double, b: Double)
    ensures
        a.plus(b) == b.plus(a),
{
}

/// A product does not depend on the order of its factors.
pub proof fn law_product_commutes(a: Double, b: Double)
    ensures
        a.times(b) == b.times(a),
{
    vstd::arithmetic::mul::lemma_mul_is_commutative(a.size(), b.size());
}

/// Two numbers differ by the same amount in either direction.
pub proof fn law_difference_is_mirrored(a: Double, b: Double)
    ensures
        a.minus(b).absolute() == b.minus(a).absolute(),
{
    let s = a.value() - b.value();
    assert(!b.nan() ==> b.negated().pattern() == b.pattern());
    lemma_magnitude_ordered(a.pattern(), b.pattern());
    if a.finite() && b.finite() && s != 0 {
        lemma_nearest_exists(if s < 0 { -s } else { s }, 1);
    }
}

/// A number less itself is zero.
pub proof fn law_difference_of_equals(a: Double)
    requires
        a.finite(),
    ensures
        a.minus(a) == (Double { bits: 0 }),
{
}

/// A finite number other than zero over itself is one: what is shared entirely has the weight
/// one.
pub proof fn law_whole_share(a: Double)
    requires
        a.finite(),
        !a.zero(),
    ensures
        a.over(a) == (Double { bits: 0x3ff0_0000_0000_0000 }),
{
    let one: int = 0x3ff0_0000_0000_0000;
    let m = a.size();
    lemma_magnitude_ordered(a.pattern(), 0);
    lemma_magnitude_shape(1022, FRACTION as int);
    assert(1022 * FRACTION + FRACTION == one);
    vstd::arithmetic::power2::lemma2_to64();
    vstd::arithmetic::power2::lemma2_to64_rest();
    vstd::arithmetic::power2::lemma_pow2_adds(52, 1022);
    assert(magnitude(one) == pow2(1074));
    lemma_nearest_exact(one, m);
    vstd::arithmetic::mul::lemma_mul_is_commutative(m, pow2(1074) as int);
}

/// A significand at any exponent step is the value of some pattern.
proof fn lemma_representable(q: int, e: int) -> (p: int)
    requires
        0 <= q < 2 * FRACTION,
        0 <= e <= 2045,
    ensures
        0 <= p < INFINITE,
        magnitude(p) == q * pow2(e as nat),
    decreases e,
{
    if e == 0 || q >= FRACTION {
        lemma_magnitude_shape(e, q);
        e * FRACTION + q
    } else {
        lemma_pow2_unfold(e as nat);
        let t = pow2((e - 1) as nat) as int;
        assert((2 * q) * t == q * (2 * t)) by (nonlinear_arith);
        lemma_representable(2 * q, e - 1)
    }
}

/// A remainder is exact, and smaller than what it is taken by.
pub proof fn law_remainder_is_exact(a: Double, b: Double)
    requires
        a.finite(),
        b.finite(),
        !b.zero(),
    ensures
        a.modulo(b).finite(),
        a.modulo(b).negative() == a.negative(),
        a.modulo(b).size() == a.size() % b.size(),
        a.modulo(b).size() < b.size(),
{
    let ma = a.size();
    let mb = b.size();
    lemma_magnitude_ordered(a.pattern(), b.pattern());
    lemma_magnitude_ordered(b.pattern(), 0);
    if a.pattern() < b.pattern() {
        vstd::arithmetic::div_mod::lemma_small_mod(ma as nat, mb as nat);
        lemma_nearest_exact(a.pattern(), 1);
    } else {
        let (ea, qa) = (step(a.pattern()), significand(a.pattern()));
        let (eb, qb) = (step(b.pattern()), significand(b.pattern()));
        lemma_magnitude_parts(a.pattern());
        lemma_magnitude_parts(b.pattern());
        assert(qb > 0) by {
            if qb == 0 {
                assert(0 * pow2(eb as nat) == 0) by (nonlinear_arith);
            }
        }
        lemma_remainder(qa, qb, ea, eb);
        let q = (qa * pow2((ea - eb) as nat)) % qb;
        let p = lemma_representable(q, eb);
        lemma_nearest_exact(p, 1);
    }
}

/// Rounding does not carry a sum past a double.
pub proof fn law_sum_keeps_side(a: Double, b: Double, c: Double)
    requires
        a.finite(),
        b.finite(),
        c.finite(),
    ensures
        !a.plus(b).nan(),
        c.value() <= a.value() + b.value() ==> c.value() <= a.plus(b).value(),
        c.value() >= a.value() + b.value() ==> c.value() >= a.plus(b).value(),
{
    let sum = a.value() + b.value();
    let size = if sum < 0 {
        -sum
    } else {
        sum
    };
    let p = c.pattern();
    let m = magnitude(p);
    lemma_magnitude_ordered(p, 0);
    lemma_magnitude_ordered(0, 0);
    lemma_nearest_exact(p, 1);
    lemma_nearest_exists(size, 1);
    let n = nearest(size, 1);
    lemma_magnitude_ordered(n, p);
    lemma_magnitude_ordered(n, 0);
    if m <= size {
        lemma_rounding_monotonic(m, size, 1);
    }
    if size <= m {
        lemma_rounding_monotonic(size, m, 1);
    }
}

/// The angle of a slope is brought into the half-turn from 0, which counts, to 180, which does
/// not.
pub proof fn law_angle_in_half_turn(degrees: Double)
    requires
        degrees.finite(),
        degrees.absolute().at_most(Double { bits: HALF_TURN }),
    ensures
        normalized(degrees).finite(),
        normalized(degrees).value() >= 0,
        normalized(degrees).below(Double { bits: HALF_TURN }),
{
    let half = Double { bits: HALF_TURN };
    let sum = degrees.value() + half.value();
    lemma_magnitude_ordered(degrees.pattern(), half.pattern());
    lemma_magnitude_ordered(half.pattern(), 0);
    lemma_nearest_exists(sum, 1);
    // Twice the half-turn has the next exponent step.
    let e = step(half.pattern());
    let q = significand(half.pattern());
    let twice = half.pattern() + FRACTION;
    lemma_magnitude_parts(half.pattern());
    lemma_magnitude_shape(e + 1, q);
    assert((e + 1) * FRACTION + q == twice);
    lemma_pow2_unfold((e + 1) as nat);
    let t = pow2(e as nat) as int;
    assert(q * (2 * t) == 2 * (q * t)) by (nonlinear_arith);
    assert(magnitude(twice) == 2 * half.size());
    lemma_nearest_exact(twice, 1);
    lemma_rounding_monotonic(sum, magnitude(twice), 1);
    assert(degrees.plus(half).finite());
    law_remainder_is_exact(degrees.plus(half), half);
    let rest = degrees.plus(half).modulo(half);
    lemma_magnitude_ordered(rest.pattern(), 0);
    assert(!degrees.plus(half).negative());
}

/// The encoding of 270.
pub const THREE_QUARTERS: u64 = 0x4070_e000_0000_0000;

/// How 90, 180 and 270 are related.
pub proof fn lemma_quarter_turns()
    ensures
        magnitude(HALF_TURN as int) == 2 * magnitude(QUARTER_TURN as int),
        magnitude(THREE_QUARTERS as int) == 3 * magnitude(QUARTER_TURN as int),
        magnitude(QUARTER_TURN as int) > 0,
{
    lemma_magnitude_shape(1028, 0x16_8000_0000_0000);
    lemma_magnitude_shape(1029, 0x16_8000_0000_0000);
    lemma_magnitude_shape(1030, 0x10_e000_0000_0000);
    lemma_pow2_unfold(1029);
    lemma_pow2_unfold(1030);
    lemma_magnitude_ordered(QUARTER_TURN as int, 0);
}

/// The angle of a slope, which lies between -90 and 90, keeps its direction: an angle that is not
/// negative is only rounded, and a negative one counts from the other side, so that two steep
/// lines have similar directions though one of them rises and the other falls.
pub proof fn law_angle_keeps_direction(degrees: Double)
    requires
        degrees.finite(),
        degrees.absolute().at_most(Double { bits: QUARTER_TURN }),
    ensures
        ({
            let half_turn = Double { bits: HALF_TURN };
            let turned = degrees.plus(half_turn).value();
            normalized(degrees).value() == if turned < half_turn.value() {
                turned
            } else {
                turned - half_turn.value()
            }
        }),
        degrees.value() >= 0 ==> degrees.plus(Double { bits: HALF_TURN }).value() >= (Double {
            bits: HALF_TURN,
        }).value(),
{
    let half_turn = Double { bits: HALF_TURN };
    let zero = Double { bits: 0 };
    lemma_quarter_turns();
    lemma_magnitude_ordered(0, 0);
    law_sum_keeps_side(degrees, half_turn, zero);
    law_sum_keeps_side(degrees, half_turn, half_turn);
    law_sum_keeps_side(degrees, half_turn, Double { bits: THREE_QUARTERS });
    let turned = degrees.plus(half_turn);
    assert(turned.finite()) by {
        lemma_magnitude_ordered(turned.pattern(), THREE_QUARTERS as int);
    }
    law_remainder_is_exact(turned, half_turn);
    lemma_magnitude_ordered(turned.pattern(), 0);
    let (m, h) = (turned.size(), half_turn.size());
    assert(m == turned.value());
    if m < h {
        vstd::arithmetic::div_mod::lemma_small_mod(m as nat, h as nat);
    } else {
        vstd::arithmetic::div_mod::lemma_mod_add_multiples_vanish(m - h, h);
        vstd::arithmetic::div_mod::lemma_small_mod((m - h) as nat, h as nat);
    }
}

/// Which of two lines is the source does not matter to the comparison of their directions.
pub proof fn law_direction_is_symmetric(s: Component, t: Component, angle_tolerance: Double)
    ensures
        tolerant(s, t, angle_tolerance) == tolerant(t, s, angle_tolerance),
{
    law_difference_is_mirrored(normalized(s.degrees), normalized(t.degrees));
}

/// A range from a number to one that is not smaller.
pub open spec fn proper(r: Range<Double>) -> bool {
    r.start.at_most(r.end)
}

/// `v` lies in a range, the ends included.
pub open spec fn within(v: Double, r: Range<Double>) -> bool {
    r.start.at_most(v) && v.at_most(r.end)
}

/// The common part of two ranges holds exactly what both of them hold.
pub proof fn law_overlap_is_intersection(r1: Range<Double>, r2: Range<Double>, v: Double)
    requires
        proper(r1),
        proper(r2),
    ensures
        within(v, r1) && within(v, r2) <==> (common(r1, r2) matches Some(r) && within(v, r)),
        common(r1, r2) matches Some(r) ==> proper(r),
{
}

/// Two ranges have a common part whichever comes first, with the same ends.
pub proof fn law_overlap_commutes(r1: Range<Double>, r2: Range<Double>)
    requires
        !r1.start.nan(),
        !r1.end.nan(),
        !r2.start.nan(),
        !r2.end.nan(),
    ensures
        common(r1, r2) is Some <==> common(r2, r1) is Some,
        common(r1, r2) matches Some(a) ==> (common(r2, r1) matches Some(b) && a.start.value()
            == b.start.value() && a.end.value() == b.end.value()),
{
}

/// What a range has in common with itself is the whole range.
pub proof fn law_overlap_with_itself(r: Range<Double>)
    requires
        proper(r),
    ensures
        common(r, r) == Some(r),
{
}

/// A vertical source line shares what lies at the common heights, in whichever direction it is
/// drawn.
pub proof fn law_vertical_line_shares_heights(s: Component, t: Component)
    requires
        s.slope.infinite(),
    ensures
        shared_part(s, t) == match y_overlap(s.line, t.line) {
            Some(r) => Some(
                (
                    Coord { x: s.line.start.x, y: r.start },
                    Coord { x: s.line.start.x, y: r.end },
                ),
            ),
            None => None,
        },
{
}

/// A line string of `n` points has `n - 1` lines, and a tree holds the lines of all its line
/// strings.
pub open spec fn total_lines(geometries: Seq<LineString>) -> int
    decreases geometries.len(),
{
    if geometries.len() == 0 {
        0
    } else {
        total_lines(geometries.drop_last()) + line_count(geometries.last().coords@.len() as int)
    }
}

/// The lines of the geometries are listed one by one.
pub proof fn law_every_line_is_listed(geometries: Seq<LineString>)
    ensures
        components_in(geometries).len() == total_lines(geometries),
    decreases geometries.len(),
{
    if geometries.len() > 0 {
        law_every_line_is_listed(geometries.drop_last());
    }
}

/// Line `k` of geometry `i` is among the listed lines, with the index of its geometry.
pub proof fn law_line_is_found(geometries: Seq<LineString>, i: int, k: int)
    requires
        0 <= i < geometries.len(),
        0 <= k < line_count(geometries[i].coords@.len() as int),
    ensures
        components_in(geometries).contains(components_of(geometries[i], i)[k]),
{
    lemma_position(geometries, i, k);
}

/// The box around a target line reaches every source line whose horizontal and vertical gaps to
/// it are not larger than the reach, so that no line within the distance tolerance is passed
/// over.
pub proof fn law_reach_covers_gaps(s: Component, t: Component, reach: Double)
    requires
        reach.finite(),
        t.line.start.x.finite(),
        t.line.start.y.finite(),
        t.line.end.x.finite(),
        t.line.end.y.finite(),
        s.line.start.x.finite(),
        s.line.start.y.finite(),
        s.line.end.x.finite(),
        s.line.end.y.finite(),
        s.line.bounds().min.x.value() - t.line.bounds().max.x.value() <= reach.value(),
        t.line.bounds().min.x.value() - s.line.bounds().max.x.value() <= reach.value(),
        s.line.bounds().min.y.value() - t.line.bounds().max.y.value() <= reach.value(),
        t.line.bounds().min.y.value() - s.line.bounds().max.y.value() <= reach.value(),
    ensures
        near(s, t, reach),
{
    let (sb, tb) = (s.line.bounds(), t.line.bounds());
    let (lower, upper) = TarLine(t.line, reach).reach();
    assert(reach.negated().finite() && reach.negated().value() == -reach.value());
    law_sum_keeps_side(tb.min.x, reach.negated(), sb.max.x);
    law_sum_keeps_side(tb.min.y, reach.negated(), sb.max.y);
    law_sum_keeps_side(tb.max.x, reach, sb.min.x);
    law_sum_keeps_side(tb.max.y, reach, sb.min.y);
    lemma_rank_orders(s.line.start.x, s.line.end.x);
    lemma_rank_orders(s.line.start.y, s.line.end.y);
    lemma_rank_orders(lower.x, sb.max.x);
    lemma_rank_orders(lower.y, sb.max.y);
    lemma_rank_orders(upper.x, sb.min.x);
    lemma_rank_orders(upper.y, sb.min.y);
}

/// The shared part of a level line stays at the height of the line.
pub proof fn law_level_line_keeps_height(line: Line, slope: Double, x: Double)
    requires
        slope.zero(),
        line.start.x.finite(),
        line.start.y.finite(),
        x.finite(),
    ensures
        point_at_x(x, line, slope).y.finite(),
        point_at_x(x, line, slope).y.value() == line.start.y.value(),
{
    let den = pow2(1074) as int;
    vstd::arithmetic::power2::lemma_pow2_pos(1074);
    lemma_magnitude_ordered(0, 0);
    lemma_nearest_exact(0, den);
    assert(slope.size() == 0);
    assert(slope.size() * line.start.x.size() == 0 && slope.size() * x.size() == 0 && magnitude(0)
        * den == 0) by (nonlinear_arith)
        requires
            slope.size() == 0,
            magnitude(0) == 0,
    ;
    assert(slope.times(line.start.x).zero() && slope.times(x).zero());
    let y = line.start.y;
    lemma_magnitude_ordered(y.pattern(), 0);
    lemma_nearest_exact(y.pattern(), 1);
    let b = y.minus(slope.times(line.start.x));
    assert(b.finite() && b.value() == y.value());
    lemma_magnitude_ordered(b.pattern(), 0);
    lemma_nearest_exact(b.pattern(), 1);
}

/// A product of two numbers is not rounded.
pub open spec fn exact_product(a: Double, b: Double) -> bool {
    a.times(b).finite() && a.times(b).size() * pow2(1074) == a.size() * b.size()
}

/// A sum of two numbers is not rounded.
pub open spec fn exact_sum(a: Double, b: Double) -> bool {
    a.plus(b).finite() && a.plus(b).value() == a.value() + b.value()
}

/// Solving for the horizontal position undoes solving for the height on the same line, where
/// nothing is rounded on the way.
pub proof fn law_solving_is_undone(x: Double, line: Line, slope: Double)
    requires
        slope.finite(),
        !slope.zero(),
        x.finite(),
        intercept(line, slope).finite(),
        exact_product(slope, x),
        exact_sum(slope.times(x), intercept(line, slope)),
    ensures
        ({
            let p = point_at_x(x, line, slope);
            &&& point_at_y(p.y, line, slope).x.value() == x.value()
            &&& point_at_y(p.y, line, slope).y == p.y
        }),
{
    let b = intercept(line, slope);
    let w = slope.times(x);
    let y = w.plus(b);
    let den = pow2(1074) as int;
    vstd::arithmetic::power2::lemma_pow2_pos(1074);
    lemma_magnitude_ordered(slope.pattern(), 0);
    lemma_magnitude_ordered(x.pattern(), 0);
    lemma_magnitude_ordered(w.pattern(), 0);
    lemma_magnitude_ordered(b.pattern(), 0);
    // The product is taken out of the sum again.
    assert(b.negated().finite() && b.negated().value() == -b.value());
    lemma_nearest_exact(w.pattern(), 1);
    let back = y.minus(b);
    assert(y.value() + b.negated().value() == w.value());
    assert(back.finite() && back.value() == w.value() && back.size() == w.size());
    // Dividing by the slope gives the factor.
    let (m, s) = (x.size(), slope.size());
    assert(back.size() * den == m * s) by (nonlinear_arith)
        requires
            back.size() * den == s * m,
    ;
    lemma_nearest_exact(x.pattern(), s);
    lemma_nearest_exists(s * m, den);
    assert(w.negative() == (slope.negative() != x.negative()));
    let q = back.over(slope);
    assert(q.pattern() == x.pattern());
    if m > 0 {
        assert(w.size() > 0) by (nonlinear_arith)
            requires
                w.size() * den == s * m,
                s > 0,
                m > 0,
                den > 0,
        ;
        assert(back.negative() == w.negative());
    }
}

/// No source is listed twice.
pub open spec fn each_once(list: Seq<MatchCandidate>) -> bool {
    forall|j: int, k: int|
        0 <= j < k < list.len() ==> list[j].source_index != list[k].source_index
}

/// Adding a length lists no source twice.
proof fn lemma_credited_once(list: Seq<MatchCandidate>, source_index: usize, shared_len: Double)
    requires
        each_once(list),
    ensures
        each_once(credited(list, source_index, shared_len)),
{
    lemma_has_place(list, source_index);
}

/// Every target lists every source at most once.
pub proof fn law_no_duplicates(
    sources: Seq<Component>,
    targets: Seq<Component>,
    pairs: Seq<(usize, usize)>,
    seen: Seq<Measured>,
    angle_tolerance: Double,
    distance_tolerance: Double,
    target: usize,
)
    requires
        seen.len() == pairs.len(),
    ensures
        ({
            let found = tally(
                sources,
                targets,
                pairs,
                seen,
                angle_tolerance,
                distance_tolerance,
            );
            found.contains_key(target) ==> each_once(found[target]) && found[target].len() > 0
        }),
    decreases pairs.len(),
{
    if pairs.len() > 0 {
        law_no_duplicates(
            sources,
            targets,
            pairs.drop_last(),
            seen.drop_last(),
            angle_tolerance,
            distance_tolerance,
            target,
        );
        let before = tally(
            sources,
            targets,
            pairs.drop_last(),
            seen.drop_last(),
            angle_tolerance,
            distance_tolerance,
        );
        let s = sources[pairs.last().0 as int];
        lemma_credited_once(listed(before, target), s.index, seen.last().shared_len);
        lemma_has_place(listed(before, target), s.index);
    }
}

/// The pair at position `i` is comparable and near enough.
pub open spec fn accepted(
    sources: Seq<Component>,
    targets: Seq<Component>,
    pairs: Seq<(usize, usize)>,
    seen: Seq<Measured>,
    angle_tolerance: Double,
    distance_tolerance: Double,
    i: int,
) -> bool {
    &&& comparable(
        sources[pairs[i].0 as int],
        targets[pairs[i].1 as int],
        angle_tolerance,
    )
    &&& seen[i].distance.at_most(distance_tolerance)
}

/// A source is listed.
pub open spec fn lists(list: Seq<MatchCandidate>, source: usize) -> bool {
    exists|k: int| 0 <= k < list.len() && (#[trigger] list[k]).source_index == source
}

/// A source is among the candidates of a target.
pub open spec fn is_matched(
    found: Map<usize, Seq<MatchCandidate>>,
    target: usize,
    source: usize,
) -> bool {
    found.contains_key(target) && lists(found[target], source)
}

/// Adding a length lists its source, and changes nothing for the others.
proof fn lemma_credited_lists(
    list: Seq<MatchCandidate>,
    source_index: usize,
    shared_len: Double,
    other: usize,
)
    ensures
        lists(credited(list, source_index, shared_len), other) <==> other == source_index || lists(
            list,
            other,
        ),
{
    lemma_has_place(list, source_index);
    let p = place(list, source_index);
    let after = credited(list, source_index, shared_len);
    assert(after[p].source_index == source_index);
    if lists(list, other) {
        let k = choose|k: int| 0 <= k < list.len() && (#[trigger] list[k]).source_index == other;
        assert(after[k].source_index == other);
    }
    if lists(after, other) && other != source_index {
        let k = choose|k: int| 0 <= k < after.len() && (#[trigger] after[k]).source_index == other;
        assert(list[k].source_index == other);
    }
}

/// A source is a candidate of a target where one of their pairs of lines is accepted, and only
/// there. The order of the pairs does not matter.
pub proof fn law_matched_where_accepted(
    sources: Seq<Component>,
    targets: Seq<Component>,
    pairs: Seq<(usize, usize)>,
    seen: Seq<Measured>,
    angle_tolerance: Double,
    distance_tolerance: Double,
    target: usize,
    source: usize,
)
    requires
        seen.len() == pairs.len(),
    ensures
        is_matched(
            tally(sources, targets, pairs, seen, angle_tolerance, distance_tolerance),
            target,
            source,
        ) <==> exists|i: int|
            0 <= i < pairs.len() && #[trigger] accepted(
                sources,
                targets,
                pairs,
                seen,
                angle_tolerance,
                distance_tolerance,
                i,
            ) && sources[pairs[i].0 as int].index == source && targets[pairs[i].1 as int].index
                == target,
    decreases pairs.len(),
{
    if pairs.len() > 0 {
        let rest = pairs.drop_last();
        let seen_rest = seen.drop_last();
        let n = pairs.len() - 1;
        law_matched_where_accepted(
            sources,
            targets,
            rest,
            seen_rest,
            angle_tolerance,
            distance_tolerance,
            target,
            source,
        );
        let before = tally(
            sources,
            targets,
            rest,
            seen_rest,
            angle_tolerance,
            distance_tolerance,
        );
        let s = sources[pairs[n].0 as int];
        let t = targets[pairs[n].1 as int];
        lemma_credited_lists(listed(before, target), s.index, seen[n].shared_len, source);
        assert forall|i: int| 0 <= i < n implies accepted(
            sources,
            targets,
            pairs,
            seen,
            angle_tolerance,
            distance_tolerance,
            i,
        ) == #[trigger] accepted(
            sources,
            targets,
            rest,
            seen_rest,
            angle_tolerance,
            distance_tolerance,
            i,
        ) && rest[i] == pairs[i] by {
        }
        let now = accepted(
            sources,
            targets,
            pairs,
            seen,
            angle_tolerance,
            distance_tolerance,
            n,
        );
        let after = tally(
            sources,
            targets,
            pairs,
            seen,
            angle_tolerance,
            distance_tolerance,
        );
        if is_matched(after, target, source) && !(now && s.index == source && t.index == target) {
            assert(is_matched(before, target, source));
            let i = choose|i: int|
                0 <= i < rest.len() && #[trigger] accepted(
                    sources,
                    targets,
                    rest,
                    seen_rest,
                    angle_tolerance,
                    distance_tolerance,
                    i,
                ) && sources[rest[i].0 as int].index == source && targets[rest[i].1 as int].index
                    == target;
            assert(accepted(
                sources,
                targets,
                pairs,
                seen,
                angle_tolerance,
                distance_tolerance,
                i,
            ));
        }
        if exists|i: int|
            0 <= i < pairs.len() && #[trigger] accepted(
                sources,
                targets,
                pairs,
                seen,
                angle_tolerance,
                distance_tolerance,
                i,
            ) && sources[pairs[i].0 as int].index == source && targets[pairs[i].1 as int].index
                == target {
            let i = choose|i: int|
                0 <= i < pairs.len() && #[trigger] accepted(
                    sources,
                    targets,
                    pairs,
                    seen,
                    angle_tolerance,
                    distance_tolerance,
                    i,
                ) && sources[pairs[i].0 as int].index == source && targets[pairs[i].1 as int].index
                    == target;
            if i < n {
                assert(accepted(
                    sources,
                    targets,
                    rest,
                    seen_rest,
                    angle_tolerance,
                    distance_tolerance,
                    i,
                ));
                assert(is_matched(before, target, source));
            }
        }
    }
}

/// The sum of two lengths is a length.
pub proof fn law_sum_of_lengths(a: Double, b: Double)
    requires
        is_length(a),
        is_length(b),
    ensures
        is_length(a.plus(b)),
{
    let sum = a.value() + b.value();
    lemma_magnitude_ordered(a.pattern(), 0);
    lemma_magnitude_ordered(b.pattern(), 0);
    lemma_nearest_exists(sum, 1);
    lemma_magnitude_ordered(nearest(sum, 1), 0);
    lemma_magnitude_ordered(0, 0);
}

/// A search lists every source at most once for a target, and no target without a source.
pub proof fn law_found_once<D, P>(
    sources: Seq<Component>,
    targets: Seq<Component>,
    reach: Double,
    angle_tolerance: Double,
    distance_tolerance: Double,
    line_distance: D,
    point_distance: P,
    found: Map<usize, Seq<MatchCandidate>>,
    target: usize,
) where D: Fn(&Line, &Line) -> Double, P: Fn(&Coord, &Coord) -> Double
    requires
        matches_found(
            sources,
            targets,
            reach,
            angle_tolerance,
            distance_tolerance,
            line_distance,
            point_distance,
            found,
        ),
        found.contains_key(target),
    ensures
        each_once(found[target]),
        found[target].len() > 0,
{
    let (pairs, seen) = lemma_search_behind(
        sources,
        targets,
        reach,
        angle_tolerance,
        distance_tolerance,
        line_distance,
        point_distance,
        found,
    );
    law_no_duplicates(
        sources,
        targets,
        pairs,
        seen,
        angle_tolerance,
        distance_tolerance,
        target,
    );
}

/// A source line and a target line whose boxes meet are comparable and near enough, by the
/// distance that `measure` gives.
pub open spec fn lines_match(
    s: Component,
    t: Component,
    reach: Double,
    angle_tolerance: Double,
    distance_tolerance: Double,
    measure: spec_fn(Line, Line) -> Double,
) -> bool {
    &&& near(s, t, reach)
    &&& comparable(s, t, angle_tolerance)
    &&& measure(t.line, s.line).at_most(distance_tolerance)
}

/// With a distance that depends on the two lines alone, a search finds a source for a target
/// exactly where one of their pairs of lines matches. Neither the order in which the trees give
/// the pairs nor the other geometries matter.
pub proof fn law_found_where_lines_match<D, P>(
    sources: Seq<Component>,
    targets: Seq<Component>,
    reach: Double,
    angle_tolerance: Double,
    distance_tolerance: Double,
    line_distance: D,
    point_distance: P,
    found: Map<usize, Seq<MatchCandidate>>,
    measure: spec_fn(Line, Line) -> Double,
    target: usize,
    source: usize,
) where D: Fn(&Line, &Line) -> Double, P: Fn(&Coord, &Coord) -> Double
    requires
        sources.len() <= usize::MAX,
        targets.len() <= usize::MAX,
        matches_found(
            sources,
            targets,
            reach,
            angle_tolerance,
            distance_tolerance,
            line_distance,
            point_distance,
            found,
        ),
        forall|a: &Line, b: &Line, d: Double| #[trigger]
            call_ensures(line_distance, (a, b), d) ==> d == measure(*a, *b),
    ensures
        is_matched(found, target, source) <==> exists|k: int, l: int|
            0 <= k < sources.len() && 0 <= l < targets.len() && #[trigger] lines_match(
                sources[k],
                targets[l],
                reach,
                angle_tolerance,
                distance_tolerance,
                measure,
            ) && sources[k].index == source && targets[l].index == target,
{
    let (pairs, seen) = lemma_search_behind(
        sources,
        targets,
        reach,
        angle_tolerance,
        distance_tolerance,
        line_distance,
        point_distance,
        found,
    );
    law_matched_where_accepted(
        sources,
        targets,
        pairs,
        seen,
        angle_tolerance,
        distance_tolerance,
        target,
        source,
    );
    assert forall|i: int| 0 <= i < pairs.len() implies #[trigger] accepted(
        sources,
        targets,
        pairs,
        seen,
        angle_tolerance,
        distance_tolerance,
        i,
    ) == lines_match(
        sources[pairs[i].0 as int],
        targets[pairs[i].1 as int],
        reach,
        angle_tolerance,
        distance_tolerance,
        measure,
    ) && pairs[i].0 < sources.len() && pairs[i].1 < targets.len() by {
        assert(pairs.contains((pairs[i].0, pairs[i].1)));
        assert(measured_by(
            line_distance,
            point_distance,
            sources[pairs[i].0 as int],
            targets[pairs[i].1 as int],
            seen[i],
            angle_tolerance,
            distance_tolerance,
        ));
    }
    if is_matched(found, target, source) {
        let i = choose|i: int|
            0 <= i < pairs.len() && #[trigger] accepted(
                sources,
                targets,
                pairs,
                seen,
                angle_tolerance,
                distance_tolerance,
                i,
            ) && sources[pairs[i].0 as int].index == source && targets[pairs[i].1 as int].index
                == target;
        let (k, l) = (pairs[i].0 as int, pairs[i].1 as int);
        assert(lines_match(
            sources[k],
            targets[l],
            reach,
            angle_tolerance,
            distance_tolerance,
            measure,
        ));
    }
    if exists|k: int, l: int|
        0 <= k < sources.len() && 0 <= l < targets.len() && #[trigger] lines_match(
            sources[k],
            targets[l],
            reach,
            angle_tolerance,
            distance_tolerance,
            measure,
        ) && sources[k].index == source && targets[l].index == target {
        let (k, l) = choose|k: int, l: int|
            0 <= k < sources.len() && 0 <= l < targets.len() && #[trigger] lines_match(
                sources[k],
                targets[l],
                reach,
                angle_tolerance,
                distance_tolerance,
                measure,
            ) && sources[k].index == source && targets[l].index == target;
        assert(pairs.contains((k as usize, l as usize)));
        let i = choose|i: int| 0 <= i < pairs.len() && pairs[i] == (k as usize, l as usize);
        assert(accepted(
            sources,
            targets,
            pairs,
            seen,
            angle_tolerance,
            distance_tolerance,
            i,
        ));
    }
}

/// How many lines the geometries before the `i`-th one have.
pub open spec fn offset(geometries: Seq<LineString>, i: int) -> int {
    total_lines(geometries.take(i))
}

/// Where line `k` of geometry `i` is listed.
pub proof fn lemma_position(geometries: Seq<LineString>, i: int, k: int)
    requires
        0 <= i < geometries.len(),
        0 <= k < line_count(geometries[i].coords@.len() as int),
    ensures
        0 <= offset(geometries, i) + k < components_in(geometries).len(),
        components_in(geometries)[offset(geometries, i) + k] == components_of(
            geometries[i],
            i,
        )[k],
    decreases geometries.len(),
{
    let rest = geometries.drop_last();
    law_every_line_is_listed(rest);
    law_every_line_is_listed(geometries.take(i));
    if i < rest.len() {
        lemma_position(rest, i, k);
        assert(rest.take(i) =~= geometries.take(i));
    } else {
        assert(geometries.take(i) =~= rest);
    }
}

/// Every listed line is a line of one of the geometries.
pub proof fn lemma_line_origin(geometries: Seq<LineString>, m: int) -> (k: int)
    requires
        0 <= m < components_in(geometries).len(),
        geometries.len() <= usize::MAX,
    ensures
        ({
            let c = components_in(geometries)[m];
            &&& c.index < geometries.len()
            &&& 0 <= k < line_count(geometries[c.index as int].coords@.len() as int)
            &&& c == components_of(geometries[c.index as int], c.index as int)[k]
            &&& m == offset(geometries, c.index as int) + k
        }),
    decreases geometries.len(),
{
    let rest = geometries.drop_last();
    law_every_line_is_listed(rest);
    if m < components_in(rest).len() {
        let i = components_in(rest)[m].index as int;
        let k = lemma_line_origin(rest, m);
        assert(rest.take(i) =~= geometries.take(i));
        k
    } else {
        assert(geometries.take(geometries.len() - 1) =~= rest);
        m - components_in(rest).len()
    }
}

/// Line `k` of a source line string and line `l` of a target line string match.
#[verifier::opaque]
pub open spec fn pair_matches(
    s: LineString,
    t: LineString,
    k: int,
    l: int,
    reach: Double,
    angle_tolerance: Double,
    distance_tolerance: Double,
    measure: spec_fn(Line, Line) -> Double,
) -> bool {
    &&& 0 <= k < line_count(s.coords@.len() as int)
    &&& 0 <= l < line_count(t.coords@.len() as int)
    &&& lines_match(
        components_of(s, 0)[k],
        components_of(t, 0)[l],
        reach,
        angle_tolerance,
        distance_tolerance,
        measure,
    )
}

/// Some line of a source line string and some line of a target line string match.
pub open spec fn geometries_match(
    s: LineString,
    t: LineString,
    reach: Double,
    angle_tolerance: Double,
    distance_tolerance: Double,
    measure: spec_fn(Line, Line) -> Double,
) -> bool {
    exists|k: int, l: int| #[trigger]
        pair_matches(s, t, k, l, reach, angle_tolerance, distance_tolerance, measure)
}

/// A search finds a source geometry for a target geometry exactly where one of the lines of the
/// one matches one of the lines of the other. The other geometries do not matter.
pub proof fn law_found_where_geometries_match<D, P>(
    source: Seq<LineString>,
    target: Seq<LineString>,
    reach: Double,
    angle_tolerance: Double,
    distance_tolerance: Double,
    line_distance: D,
    point_distance: P,
    found: Map<usize, Seq<MatchCandidate>>,
    measure: spec_fn(Line, Line) -> Double,
    i: usize,
    j: usize,
) where D: Fn(&Line, &Line) -> Double, P: Fn(&Coord, &Coord) -> Double
    requires
        source.len() <= usize::MAX,
        target.len() <= usize::MAX,
        components_in(source).len() <= usize::MAX,
        components_in(target).len() <= usize::MAX,
        matches_found(
            components_in(source),
            components_in(target),
            reach,
            angle_tolerance,
            distance_tolerance,
            line_distance,
            point_distance,
            found,
        ),
        forall|a: &Line, b: &Line, d: Double| #[trigger]
            call_ensures(line_distance, (a, b), d) ==> d == measure(*a, *b),
    ensures
        is_matched(found, j, i) <==> i < source.len() && j < target.len() && geometries_match(
            source[i as int],
            target[j as int],
            reach,
            angle_tolerance,
            distance_tolerance,
            measure,
        ),
{
    reveal(pair_matches);
    let sources = components_in(source);
    let targets = components_in(target);
    law_found_where_lines_match(
        sources,
        targets,
        reach,
        angle_tolerance,
        distance_tolerance,
        line_distance,
        point_distance,
        found,
        measure,
        j,
        i,
    );
    if is_matched(found, j, i) {
        let (m, n) = choose|m: int, n: int|
            0 <= m < sources.len() && 0 <= n < targets.len() && #[trigger] lines_match(
                sources[m],
                targets[n],
                reach,
                angle_tolerance,
                distance_tolerance,
                measure,
            ) && sources[m].index == i && targets[n].index == j;
        let k = lemma_line_origin(source, m);
        let l = lemma_line_origin(target, n);
        assert(pair_matches(
            source[i as int],
            target[j as int],
            k,
            l,
            reach,
            angle_tolerance,
            distance_tolerance,
            measure,
        ));
    }
    if i < source.len() && j < target.len() && geometries_match(
        source[i as int],
        target[j as int],
        reach,
        angle_tolerance,
        distance_tolerance,
        measure,
    ) {
        let (k, l) = choose|k: int, l: int| #[trigger]
            pair_matches(
                source[i as int],
                target[j as int],
                k,
                l,
                reach,
                angle_tolerance,
                distance_tolerance,
                measure,
            );
        lemma_position(source, i as int, k);
        lemma_position(target, j as int, l);
        assert(lines_match(
            sources[offset(source, i as int) + k],
            targets[offset(target, j as int) + l],
            reach,
            angle_tolerance,
            distance_tolerance,
            measure,
        ));
    }
}

/// The number of candidates of some targets.
pub open spec fn total_candidates(
    targets: Seq<usize>,
    matches: Map<usize, Seq<MatchCandidate>>,
) -> int
    decreases targets.len(),
{
    if targets.len() == 0 {
        0
    } else {
        total_candidates(targets.drop_last(), matches) + matches[targets.last()].len()
    }
}

/// The table has one row for each match.
pub proof fn law_row_for_each_match(
    targets: Seq<usize>,
    matches: Map<usize, Seq<MatchCandidate>>,
    source_lens: Seq<Double>,
    target_lens: Seq<Double>,
)
    ensures
        rows_for(targets, matches, source_lens, target_lens).len() == total_candidates(
            targets,
            matches,
        ),
    decreases targets.len(),
{
    if targets.len() > 0 {
        law_row_for_each_match(targets.drop_last(), matches, source_lens, target_lens);
    }
}

/// The match at position `k` of the list of a target has its row in the table.
pub proof fn law_match_has_row(
    targets: Seq<usize>,
    matches: Map<usize, Seq<MatchCandidate>>,
    source_lens: Seq<Double>,
    target_lens: Seq<Double>,
    i: int,
    k: int,
)
    requires
        0 <= i < targets.len(),
        0 <= k < matches[targets[i]].len(),
    ensures
        rows_for(targets, matches, source_lens, target_lens).contains(
            row(targets[i], matches[targets[i]][k], source_lens, target_lens),
        ),
    decreases targets.len(),
{
    let rest = targets.drop_last();
    let head = rows_for(rest, matches, source_lens, target_lens);
    let last = targets.last();
    let tail = rows_of(last, matches[last], source_lens, target_lens);
    let all = rows_for(targets, matches, source_lens, target_lens);
    let r = row(targets[i], matches[targets[i]][k], source_lens, target_lens);
    if i < rest.len() {
        law_match_has_row(rest, matches, source_lens, target_lens, i, k);
        let j = choose|j: int| 0 <= j < head.len() && head[j] == r;
        assert(all[j] == r);
    } else {
        assert(tail[k] == r);
        assert(all[head.len() + k] == r);
    }
}

/// Every row of the table is that of a match.
pub proof fn law_row_has_match(
    targets: Seq<usize>,
    matches: Map<usize, Seq<MatchCandidate>>,
    source_lens: Seq<Double>,
    target_lens: Seq<Double>,
    m: int,
) -> (at: (int, int))
    requires
        0 <= m < rows_for(targets, matches, source_lens, target_lens).len(),
    ensures
        0 <= at.0 < targets.len(),
        0 <= at.1 < matches[targets[at.0]].len(),
        rows_for(targets, matches, source_lens, target_lens)[m] == row(
            targets[at.0],
            matches[targets[at.0]][at.1],
            source_lens,
            target_lens,
        ),
    decreases targets.len(),
{
    let rest = targets.drop_last();
    let head = rows_for(rest, matches, source_lens, target_lens);
    if m < head.len() {
        law_row_has_match(rest, matches, source_lens, target_lens, m)
    } else {
        (targets.len() - 1, m - head.len())
    }
}

/// A column holds the last value of each target, and zero for targets without a value.
pub proof fn law_last_value_stays(n: nat, values: Seq<InterpolatedValue>, target: int, k: int)
    requires
        0 <= target < n,
        forall|i: int| 0 <= i < values.len() ==> (#[trigger] values[i]).target_id < n,
        -1 <= k < values.len(),
        k >= 0 ==> values[k].target_id == target,
        forall|i: int| k < i < values.len() ==> (#[trigger] values[i]).target_id != target,
    ensures
        spread(n, values).len() == n,
        spread(n, values)[target] == (if k >= 0 {
            values[k].value
        } else {
            Double { bits: 0 }
        }),
    decreases values.len(),
{
    if values.len() > 0 {
        let rest = values.drop_last();
        if k == values.len() - 1 {
            lemma_spread_len(n, rest);
        } else {
            law_last_value_stays(n, rest, target, k);
        }
    }
}

} // verus!
