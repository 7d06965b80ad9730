//! What holds of the lengths that a search finds.
use crate::anime::{all_wf, Anime};
use crate::double::Double;
use crate::geometry::{
    all_finite, has_slope, is_angle, is_length, is_positive, line_at, line_count, Coord, Line,
    LineString,
};
use crate::laws::{
    accepted, each_once, is_matched, law_every_line_is_listed, law_found_once,
    law_found_where_geometries_match, law_matched_where_accepted, law_row_has_match,
    law_sum_of_lengths, lemma_line_origin, lemma_position, lines_match, lists, offset,
    pair_matches, total_lines,
};
use crate::matches::{
    comparable, contents, credited, is_place, is_search, lemma_has_place, lemma_place,
    lemma_search_behind, listed, matches_found, measured_by, normalized, place, shared_part, tally,
    MatchCandidate, MatchesMap, Measured,
};
use crate::py_anime::{lists_targets, rows_for};
use crate::rounding::lemma_magnitude_ordered;
use crate::tree::{components_in, components_of, loaded, near, Component};
use vstd::prelude::*;

verus! {

/// The sum of lengths that are added one after the other.
pub open spec fn total(parts: Seq<Double>) -> Double
    decreases parts.len(),
{
    if parts.len() == 0 {
        Double { bits: 0 }
    } else if parts.len() == 1 {
        parts[0]
    } else {
        total(parts.drop_last()).plus(parts.last())
    }
}

/// The length that a list has for a source, if the source is listed.
pub open spec fn length_of(list: Seq<MatchCandidate>, source: usize) -> Option<Double> {
    let k = place(list, source);
    if k < list.len() {
        Some(list[k].shared_len)
    } else {
        None
    }
}

/// The pair at position `i` is accepted, and belongs to the given target and source.
pub open spec fn is_own(
    sources: Seq<Component>,
    targets: Seq<Component>,
    pairs: Seq<(usize, usize)>,
    seen: Seq<Measured>,
    angle_tolerance: Double,
    distance_tolerance: Double,
    target: usize,
    source: usize,
    i: int,
) -> bool {
    &&& 0 <= i < pairs.len()
    &&& accepted(sources, targets, pairs, seen, angle_tolerance, distance_tolerance, i)
    &&& sources[pairs[i].0 as int].index == source
    &&& targets[pairs[i].1 as int].index == target
}

/// The positions of the accepted pairs of a target and a source, in order.
pub open spec fn own(
    sources: Seq<Component>,
    targets: Seq<Component>,
    pairs: Seq<(usize, usize)>,
    seen: Seq<Measured>,
    angle_tolerance: Double,
    distance_tolerance: Double,
    target: usize,
    source: usize,
) -> Seq<int>
    decreases pairs.len(),
{
    if pairs.len() == 0 {
        Seq::empty()
    } else {
        let before = own(
            sources,
            targets,
            pairs.drop_last(),
            seen.drop_last(),
            angle_tolerance,
            distance_tolerance,
            target,
            source,
        );
        let last = pairs.len() - 1;
        if is_own(
            sources,
            targets,
            pairs,
            seen,
            angle_tolerance,
            distance_tolerance,
            target,
            source,
            last,
        ) {
            before.push(last)
        } else {
            before
        }
    }
}

/// The lengths that were measured at some positions.
pub open spec fn parts(seen: Seq<Measured>, positions: Seq<int>) -> Seq<Double> {
    Seq::new(positions.len(), |i: int| seen[positions[i]].shared_len)
}

/// Adding a length to a source changes the length of this source alone.
proof fn lemma_credited_length(
    list: Seq<MatchCandidate>,
    source: usize,
    shared_len: Double,
    other: usize,
)
    ensures
        length_of(credited(list, source, shared_len), other) == if other == source {
            match length_of(list, source) {
                Some(length) => Some(length.plus(shared_len)),
                None => Some(shared_len),
            }
        } else {
            length_of(list, other)
        },
{
    let after = credited(list, source, shared_len);
    lemma_has_place(list, source);
    lemma_has_place(list, other);
    let p = place(list, source);
    let q = place(list, other);
    if other == source {
        assert(is_place(after, source, p));
        lemma_place(after, source, p);
    } else if q < list.len() {
        assert forall|j: int| 0 <= j < q implies (#[trigger] after[j]).source_index != other by {
            assert(list[j].source_index != other);
        }
        assert(is_place(after, other, q));
        lemma_place(after, other, q);
    } else {
        assert forall|j: int| 0 <= j < after.len() implies (#[trigger] after[j]).source_index
            != other by {
            if j < list.len() {
                assert(list[j].source_index != other);
            }
        }
        assert(is_place(after, other, after.len() as int));
        lemma_place(after, other, after.len() as int);
    }
}

/// The positions are those of the accepted pairs of the target and the source, each once.
proof fn lemma_own(
    sources: Seq<Component>,
    targets: Seq<Component>,
    pairs: Seq<(usize, usize)>,
    seen: Seq<Measured>,
    angle_tolerance: Double,
    distance_tolerance: Double,
    target: usize,
    source: usize,
)
    requires
        seen.len() == pairs.len(),
    ensures
        ({
            let positions = own(
                sources,
                targets,
                pairs,
                seen,
                angle_tolerance,
                distance_tolerance,
                target,
                source,
            );
            &&& positions.no_duplicates()
            &&& forall|i: int| #[trigger]
                positions.contains(i) <==> is_own(
                    sources,
                    targets,
                    pairs,
                    seen,
                    angle_tolerance,
                    distance_tolerance,
                    target,
                    source,
                    i,
                )
        }),
    decreases pairs.len(),
{
    if pairs.len() > 0 {
        let (pairs0, seen0) = (pairs.drop_last(), seen.drop_last());
        lemma_own(
            sources,
            targets,
            pairs0,
            seen0,
            angle_tolerance,
            distance_tolerance,
            target,
            source,
        );
        let before = own(
            sources,
            targets,
            pairs0,
            seen0,
            angle_tolerance,
            distance_tolerance,
            target,
            source,
        );
        let after = own(
            sources,
            targets,
            pairs,
            seen,
            angle_tolerance,
            distance_tolerance,
            target,
            source,
        );
        let last = pairs.len() - 1;
        assert(!before.contains(last));
        assert forall|i: int| #[trigger] after.contains(i) <==> is_own(
            sources,
            targets,
            pairs,
            seen,
            angle_tolerance,
            distance_tolerance,
            target,
            source,
            i,
        ) by {
            if i < last {
                assert(is_own(
                    sources,
                    targets,
                    pairs,
                    seen,
                    angle_tolerance,
                    distance_tolerance,
                    target,
                    source,
                    i,
                ) == before.contains(i));
            }
            if before.contains(i) {
                let x = choose|x: int| 0 <= x < before.len() && before[x] == i;
                assert(after[x] == i);
            }
            if after.contains(i) && i != last {
                let x = choose|x: int| 0 <= x < after.len() && after[x] == i;
                assert(before[x] == i);
            }
            if i == last && after.len() > before.len() {
                assert(after[before.len() as int] == i);
            }
        }
        assert forall|x: int, y: int|
            0 <= x < after.len() && 0 <= y < after.len() && x != y implies after[x]
            != after[y] by {
            if x < before.len() && y < before.len() {
                assert(before[x] != before[y]);
            } else if x < before.len() {
                assert(before.contains(before[x]));
            } else {
                assert(before.contains(before[y]));
            }
        }
    }
}

/// The length of a match is the sum of what was measured of the accepted pairs of its own target
/// and source, in the order of the pairs.
pub proof fn law_length_is_total(
    sources: Seq<Component>,
    targets: Seq<Component>,
    pairs: Seq<(usize, usize)>,
    seen: Seq<Measured>,
    angle_tolerance: Double,
    distance_tolerance: Double,
    target: usize,
    source: usize,
)
    requires
        seen.len() == pairs.len(),
    ensures
        ({
            let positions = own(
                sources,
                targets,
                pairs,
                seen,
                angle_tolerance,
                distance_tolerance,
                target,
                source,
            );
            let found = tally(
                sources,
                targets,
                pairs,
                seen,
                angle_tolerance,
                distance_tolerance,
            );
            length_of(listed(found, target), source) == if positions.len() == 0 {
                None
            } else {
                Some(total(parts(seen, positions)))
            }
        }),
    decreases pairs.len(),
{
    if pairs.len() == 0 {
        lemma_has_place(Seq::<MatchCandidate>::empty(), source);
    } else {
        let (pairs0, seen0) = (pairs.drop_last(), seen.drop_last());
        law_length_is_total(
            sources,
            targets,
            pairs0,
            seen0,
            angle_tolerance,
            distance_tolerance,
            target,
            source,
        );
        lemma_own(
            sources,
            targets,
            pairs0,
            seen0,
            angle_tolerance,
            distance_tolerance,
            target,
            source,
        );
        let before = own(
            sources,
            targets,
            pairs0,
            seen0,
            angle_tolerance,
            distance_tolerance,
            target,
            source,
        );
        let after = own(
            sources,
            targets,
            pairs,
            seen,
            angle_tolerance,
            distance_tolerance,
            target,
            source,
        );
        let found0 = tally(
            sources,
            targets,
            pairs0,
            seen0,
            angle_tolerance,
            distance_tolerance,
        );
        let last = pairs.len() - 1;
        assert forall|x: int| 0 <= x < before.len() implies (#[trigger] before[x]) < last && 0
            <= before[x] by {
            assert(before.contains(before[x]));
        }
        assert(parts(seen, before) =~= parts(seen0, before));
        let s = sources[pairs[last].0 as int];
        lemma_credited_length(listed(found0, target), s.index, seen[last].shared_len, source);
        if after.len() > before.len() {
            assert(parts(seen, after) =~= parts(seen, before).push(seen[last].shared_len));
            assert(parts(seen, after).drop_last() =~= parts(seen, before));
        }
    }
}

/// A source has a length where it is listed.
proof fn lemma_length_where_listed(list: Seq<MatchCandidate>, source: usize)
    ensures
        length_of(list, source) is Some <==> lists(list, source),
{
    lemma_has_place(list, source);
    let p = place(list, source);
    if p < list.len() {
        assert(list[p].source_index == source);
    }
}

/// In a list without duplicates every candidate has the length of its source.
pub proof fn lemma_candidate_length(list: Seq<MatchCandidate>, k: int)
    requires
        each_once(list),
        0 <= k < list.len(),
    ensures
        length_of(list, list[k].source_index) == Some(list[k].shared_len),
{
    assert(is_place(list, list[k].source_index, k));
    lemma_place(list, list[k].source_index, k);
}

/// A sum of lengths is a length.
proof fn lemma_total_length(lengths: Seq<Double>)
    requires
        forall|i: int| 0 <= i < lengths.len() ==> is_length(#[trigger] lengths[i]),
    ensures
        is_length(total(lengths)),
    decreases lengths.len(),
{
    lemma_magnitude_ordered(0, 0);
    if lengths.len() > 1 {
        let rest = lengths.drop_last();
        assert forall|i: int| 0 <= i < rest.len() implies is_length(#[trigger] rest[i]) by {
            assert(rest[i] == lengths[i]);
        }
        lemma_total_length(rest);
        law_sum_of_lengths(total(rest), lengths.last());
    }
}

/// The shared lengths that a search finds are not negative, where the distance of finite points is
/// not and the ends of what the accepted lines of the match share are finite.
pub proof fn law_found_lengths<D, P>(
    sources: Seq<Component>,
    targets: Seq<Component>,
    reach: Double,
    angle_tolerance: Double,
    distance_tolerance: Double,
    line_distance: D,
    point_distance: P,
    found: Map<usize, Seq<MatchCandidate>>,
    target: usize,
    k: int,
) where D: Fn(&Line, &Line) -> Double, P: Fn(&Coord, &Coord) -> Double
    requires
        matches_found(
            sources,
            targets,
            reach,
            angle_tolerance,
            distance_tolerance,
            line_distance,
            point_distance,
            found,
        ),
        forall|a: &Coord, b: &Coord, d: Double|
            a.finite() && b.finite() && #[trigger] call_ensures(point_distance, (a, b), d)
                ==> is_length(d),
        found.contains_key(target),
        0 <= k < found[target].len(),
        forall|m: int, n: int, d: Double|
            {
                &&& 0 <= m < sources.len()
                &&& 0 <= n < targets.len()
                &&& sources[m].index == found[target][k].source_index
                &&& targets[n].index == target
                &&& near(sources[m], targets[n], reach)
                &&& comparable(sources[m], targets[n], angle_tolerance)
                &&& #[trigger] call_ensures(
                    line_distance,
                    (&targets[n].line, &sources[m].line),
                    d,
                )
                &&& d.at_most(distance_tolerance)
            } ==> (shared_part(sources[m], targets[n]) matches Some(ends) ==> ends.0.finite()
                && ends.1.finite()),
    ensures
        is_length(found[target][k].shared_len),
{
    let source = found[target][k].source_index;
    let (pairs, seen) = lemma_search_behind(
        sources,
        targets,
        reach,
        angle_tolerance,
        distance_tolerance,
        line_distance,
        point_distance,
        found,
    );
    law_found_once(
        sources,
        targets,
        reach,
        angle_tolerance,
        distance_tolerance,
        line_distance,
        point_distance,
        found,
        target,
    );
    lemma_candidate_length(found[target], k);
    law_length_is_total(
        sources,
        targets,
        pairs,
        seen,
        angle_tolerance,
        distance_tolerance,
        target,
        source,
    );
    lemma_own(
        sources,
        targets,
        pairs,
        seen,
        angle_tolerance,
        distance_tolerance,
        target,
        source,
    );
    let positions = own(
        sources,
        targets,
        pairs,
        seen,
        angle_tolerance,
        distance_tolerance,
        target,
        source,
    );
    let lengths = parts(seen, positions);
    lemma_magnitude_ordered(0, 0);
    assert forall|x: int| 0 <= x < lengths.len() implies is_length(#[trigger] lengths[x]) by {
        let i = positions[x];
        assert(positions.contains(i));
        let s = sources[pairs[i].0 as int];
        let t = targets[pairs[i].1 as int];
        assert(measured_by(
            line_distance,
            point_distance,
            s,
            t,
            seen[i],
            angle_tolerance,
            distance_tolerance,
        ));
        assert(pairs.contains((pairs[i].0, pairs[i].1)));
        assert(call_ensures(line_distance, (&t.line, &s.line), seen[i].distance));
        if let Some(ends) = shared_part(s, t) {
            assert(call_ensures(point_distance, (&ends.0, &ends.1), seen[i].shared_len));
        }
    }
    lemma_total_length(lengths);
}

/// The length that two lines share, by the distance that `extent` gives.
pub open spec fn shared_by(
    s: Component,
    t: Component,
    extent: spec_fn(Coord, Coord) -> Double,
) -> Double {
    match shared_part(s, t) {
        Some(ends) => extent(ends.0, ends.1),
        None => Double { bits: 0 },
    }
}

/// `order` lists the pairs of lines of two line strings that match, each once.
pub open spec fn lists_matching(
    s: LineString,
    t: LineString,
    order: Seq<(int, int)>,
    reach: Double,
    angle_tolerance: Double,
    distance_tolerance: Double,
    measure: spec_fn(Line, Line) -> Double,
) -> bool {
    &&& order.no_duplicates()
    &&& forall|k: int, l: int| #[trigger]
        order.contains((k, l)) <==> pair_matches(
            s,
            t,
            k,
            l,
            reach,
            angle_tolerance,
            distance_tolerance,
            measure,
        )
}

/// What the listed pairs of lines of two line strings share.
pub open spec fn shares(
    s: LineString,
    t: LineString,
    order: Seq<(int, int)>,
    extent: spec_fn(Coord, Coord) -> Double,
) -> Seq<Double> {
    Seq::new(
        order.len(),
        |x: int|
            shared_by(components_of(s, 0)[order[x].0], components_of(t, 0)[order[x].1], extent),
    )
}

/// `length` is the sum, in some order, of what the matching pairs of lines of two line strings
/// share.
pub open spec fn is_shared_sum(
    s: LineString,
    t: LineString,
    reach: Double,
    angle_tolerance: Double,
    distance_tolerance: Double,
    measure: spec_fn(Line, Line) -> Double,
    extent: spec_fn(Coord, Coord) -> Double,
    length: Double,
) -> bool {
    exists|order: Seq<(int, int)>|
        {
            &&& lists_matching(
                s,
                t,
                order,
                reach,
                angle_tolerance,
                distance_tolerance,
                measure,
            )
            &&& length == total(#[trigger] shares(s, t, order, extent))
        }
}

/// To which geometries two lines belong does not matter to what they share and to whether they
/// match.
proof fn lemma_index_is_left_out(
    s: Component,
    t: Component,
    s2: Component,
    t2: Component,
    reach: Double,
    angle_tolerance: Double,
    distance_tolerance: Double,
    measure: spec_fn(Line, Line) -> Double,
)
    requires
        s2 == (Component { index: s2.index, ..s }),
        t2 == (Component { index: t2.index, ..t }),
    ensures
        lines_match(s, t, reach, angle_tolerance, distance_tolerance, measure) == lines_match(
            s2,
            t2,
            reach,
            angle_tolerance,
            distance_tolerance,
            measure,
        ),
        shared_part(s, t) == shared_part(s2, t2),
{
}

/// A near pair is accepted where its lines match, and what was measured of it is then what the
/// lines share.
proof fn lemma_measured<D, P>(
    line_distance: D,
    point_distance: P,
    s: Component,
    t: Component,
    seen: Measured,
    reach: Double,
    angle_tolerance: Double,
    distance_tolerance: Double,
    measure: spec_fn(Line, Line) -> Double,
    extent: spec_fn(Coord, Coord) -> Double,
) where D: Fn(&Line, &Line) -> Double, P: Fn(&Coord, &Coord) -> Double
    requires
        measured_by(
            line_distance,
            point_distance,
            s,
            t,
            seen,
            angle_tolerance,
            distance_tolerance,
        ),
        near(s, t, reach),
        forall|a: &Line, b: &Line, d: Double| #[trigger]
            call_ensures(line_distance, (a, b), d) ==> d == measure(*a, *b),
        forall|a: &Coord, b: &Coord, d: Double| #[trigger]
            call_ensures(point_distance, (a, b), d) ==> d == extent(*a, *b),
    ensures
        comparable(s, t, angle_tolerance) && seen.distance.at_most(distance_tolerance)
            <==> lines_match(s, t, reach, angle_tolerance, distance_tolerance, measure),
        lines_match(s, t, reach, angle_tolerance, distance_tolerance, measure) ==> seen.shared_len
            == shared_by(s, t, extent),
{
}

/// An accepted pair of two line strings is a matching pair of their lines.
proof fn lemma_own_matches<D, P>(
    source: Seq<LineString>,
    target: Seq<LineString>,
    reach: Double,
    angle_tolerance: Double,
    distance_tolerance: Double,
    line_distance: D,
    point_distance: P,
    pairs: Seq<(usize, usize)>,
    seen: Seq<Measured>,
    measure: spec_fn(Line, Line) -> Double,
    extent: spec_fn(Coord, Coord) -> Double,
    i: usize,
    j: usize,
    p: int,
) -> (r: (int, int)) where D: Fn(&Line, &Line) -> Double, P: Fn(&Coord, &Coord) -> Double
    requires
        source.len() <= usize::MAX,
        target.len() <= usize::MAX,
        components_in(source).len() <= usize::MAX,
        components_in(target).len() <= usize::MAX,
        i < source.len(),
        j < target.len(),
        is_search(
            components_in(source),
            components_in(target),
            reach,
            angle_tolerance,
            distance_tolerance,
            line_distance,
            point_distance,
            pairs,
            seen,
        ),
        forall|a: &Line, b: &Line, d: Double| #[trigger]
            call_ensures(line_distance, (a, b), d) ==> d == measure(*a, *b),
        forall|a: &Coord, b: &Coord, d: Double| #[trigger]
            call_ensures(point_distance, (a, b), d) ==> d == extent(*a, *b),
        is_own(
            components_in(source),
            components_in(target),
            pairs,
            seen,
            angle_tolerance,
            distance_tolerance,
            j,
            i,
            p,
        ),
    ensures
        r == (pairs[p].0 - offset(source, i as int), pairs[p].1 - offset(target, j as int)),
        pair_matches(
            source[i as int],
            target[j as int],
            r.0,
            r.1,
            reach,
            angle_tolerance,
            distance_tolerance,
            measure,
        ),
        seen[p].shared_len == shared_by(
            components_of(source[i as int], 0)[r.0],
            components_of(target[j as int], 0)[r.1],
            extent,
        ),
{
    reveal(pair_matches);
    let (m, n) = (pairs[p].0 as int, pairs[p].1 as int);
    let (c, d) = (components_in(source)[m], components_in(target)[n]);
    assert(pairs.contains((pairs[p].0, pairs[p].1)));
    let k = lemma_line_origin(source, m);
    let l = lemma_line_origin(target, n);
    lemma_measured(
        line_distance,
        point_distance,
        c,
        d,
        seen[p],
        reach,
        angle_tolerance,
        distance_tolerance,
        measure,
        extent,
    );
    lemma_index_is_left_out(
        c,
        d,
        components_of(source[i as int], 0)[k],
        components_of(target[j as int], 0)[l],
        reach,
        angle_tolerance,
        distance_tolerance,
        measure,
    );
    (k, l)
}

/// A matching pair of lines of two line strings is an accepted pair of theirs.
proof fn lemma_matching_is_own<D, P>(
    source: Seq<LineString>,
    target: Seq<LineString>,
    reach: Double,
    angle_tolerance: Double,
    distance_tolerance: Double,
    line_distance: D,
    point_distance: P,
    pairs: Seq<(usize, usize)>,
    seen: Seq<Measured>,
    measure: spec_fn(Line, Line) -> Double,
    extent: spec_fn(Coord, Coord) -> Double,
    i: usize,
    j: usize,
    k: int,
    l: int,
) -> (p: int) where D: Fn(&Line, &Line) -> Double, P: Fn(&Coord, &Coord) -> Double
    requires
        source.len() <= usize::MAX,
        target.len() <= usize::MAX,
        components_in(source).len() <= usize::MAX,
        components_in(target).len() <= usize::MAX,
        i < source.len(),
        j < target.len(),
        is_search(
            components_in(source),
            components_in(target),
            reach,
            angle_tolerance,
            distance_tolerance,
            line_distance,
            point_distance,
            pairs,
            seen,
        ),
        forall|a: &Line, b: &Line, d: Double| #[trigger]
            call_ensures(line_distance, (a, b), d) ==> d == measure(*a, *b),
        forall|a: &Coord, b: &Coord, d: Double| #[trigger]
            call_ensures(point_distance, (a, b), d) ==> d == extent(*a, *b),
        pair_matches(
            source[i as int],
            target[j as int],
            k,
            l,
            reach,
            angle_tolerance,
            distance_tolerance,
            measure,
        ),
    ensures
        pairs[p].0 == offset(source, i as int) + k,
        pairs[p].1 == offset(target, j as int) + l,
        is_own(
            components_in(source),
            components_in(target),
            pairs,
            seen,
            angle_tolerance,
            distance_tolerance,
            j,
            i,
            p,
        ),
{
    reveal(pair_matches);
    let (m, n) = (offset(source, i as int) + k, offset(target, j as int) + l);
    lemma_position(source, i as int, k);
    lemma_position(target, j as int, l);
    let (c, d) = (components_in(source)[m], components_in(target)[n]);
    lemma_index_is_left_out(
        c,
        d,
        components_of(source[i as int], 0)[k],
        components_of(target[j as int], 0)[l],
        reach,
        angle_tolerance,
        distance_tolerance,
        measure,
    );
    let pair = (m as usize, n as usize);
    assert(pairs.contains(pair));
    let p = choose|p: int| 0 <= p < pairs.len() && pairs[p] == pair;
    lemma_measured(
        line_distance,
        point_distance,
        c,
        d,
        seen[p],
        reach,
        angle_tolerance,
        distance_tolerance,
        measure,
        extent,
    );
    p
}

/// With distances that depend on the lines and on the points alone, the length of a match is the
/// sum of what the matching pairs of lines of its own two line strings share. The order in which
/// they are added is that in which the trees give the pairs; the other geometries do not matter.
pub proof fn law_length_is_shared_sum<D, P>(
    source: Seq<LineString>,
    target: Seq<LineString>,
    reach: Double,
    angle_tolerance: Double,
    distance_tolerance: Double,
    line_distance: D,
    point_distance: P,
    found: Map<usize, Seq<MatchCandidate>>,
    measure: spec_fn(Line, Line) -> Double,
    extent: spec_fn(Coord, Coord) -> Double,
    i: usize,
    j: usize,
) where D: Fn(&Line, &Line) -> Double, P: Fn(&Coord, &Coord) -> Double
    requires
        source.len() <= usize::MAX,
        target.len() <= usize::MAX,
        components_in(source).len() <= usize::MAX,
        components_in(target).len() <= usize::MAX,
        matches_found(
            components_in(source),
            components_in(target),
            reach,
            angle_tolerance,
            distance_tolerance,
            line_distance,
            point_distance,
            found,
        ),
        forall|a: &Line, b: &Line, d: Double| #[trigger]
            call_ensures(line_distance, (a, b), d) ==> d == measure(*a, *b),
        forall|a: &Coord, b: &Coord, d: Double| #[trigger]
            call_ensures(point_distance, (a, b), d) ==> d == extent(*a, *b),
        is_matched(found, j, i),
    ensures
        i < source.len(),
        j < target.len(),
        length_of(found[j], i) matches Some(length) && is_shared_sum(
            source[i as int],
            target[j as int],
            reach,
            angle_tolerance,
            distance_tolerance,
            measure,
            extent,
            length,
        ),
{
    let sources = components_in(source);
    let targets = components_in(target);
    law_found_where_geometries_match(
        source,
        target,
        reach,
        angle_tolerance,
        distance_tolerance,
        line_distance,
        point_distance,
        found,
        measure,
        i,
        j,
    );
    let s = source[i as int];
    let t = target[j as int];
    let (pairs, seen) = lemma_search_behind(
        sources,
        targets,
        reach,
        angle_tolerance,
        distance_tolerance,
        line_distance,
        point_distance,
        found,
    );
    lemma_length_where_listed(found[j], i);
    law_length_is_total(sources, targets, pairs, seen, angle_tolerance, distance_tolerance, j, i);
    lemma_own(sources, targets, pairs, seen, angle_tolerance, distance_tolerance, j, i);
    let positions = own(
        sources,
        targets,
        pairs,
        seen,
        angle_tolerance,
        distance_tolerance,
        j,
        i,
    );
    let (from, to) = (offset(source, i as int), offset(target, j as int));
    let order = Seq::new(
        positions.len(),
        |x: int| (pairs[positions[x]].0 - from, pairs[positions[x]].1 - to),
    );
    assert forall|x: int| 0 <= x < positions.len() implies ({
        let (k, l) = #[trigger] order[x];
        &&& pair_matches(s, t, k, l, reach, angle_tolerance, distance_tolerance, measure)
        &&& parts(seen, positions)[x] == shares(s, t, order, extent)[x]
    }) by {
        assert(positions.contains(positions[x]));
        let r = lemma_own_matches(
            source,
            target,
            reach,
            angle_tolerance,
            distance_tolerance,
            line_distance,
            point_distance,
            pairs,
            seen,
            measure,
            extent,
            i,
            j,
            positions[x],
        );
    }
    assert(parts(seen, positions) =~= shares(s, t, order, extent));
    assert forall|x: int, y: int|
        0 <= x < order.len() && 0 <= y < order.len() && x != y implies order[x] != order[y] by {
        let (p, q) = (positions[x], positions[y]);
        assert(positions.contains(p) && positions.contains(q));
        assert(p != q);
        assert(pairs[p] != pairs[q]);
    }
    assert forall|k: int, l: int| #[trigger] order.contains((k, l)) <==> pair_matches(
        s,
        t,
        k,
        l,
        reach,
        angle_tolerance,
        distance_tolerance,
        measure,
    ) by {
        if order.contains((k, l)) {
            let x = choose|x: int| 0 <= x < order.len() && order[x] == (k, l);
            assert(order[x] == (k, l));
        }
        if pair_matches(s, t, k, l, reach, angle_tolerance, distance_tolerance, measure) {
            let p = lemma_matching_is_own(
                source,
                target,
                reach,
                angle_tolerance,
                distance_tolerance,
                line_distance,
                point_distance,
                pairs,
                seen,
                measure,
                extent,
                i,
                j,
                k,
                l,
            );
            assert(positions.contains(p));
            let x = choose|x: int| 0 <= x < positions.len() && positions[x] == p;
            assert(order[x] == (k, l));
        }
    }
    assert(lists_matching(s, t, order, reach, angle_tolerance, distance_tolerance, measure));
}

/// A match depends on its own two line strings: searched for alone they match as they do among all
/// the others, at the first places, and share the same sum of lengths up to the order in which it
/// is added.
pub proof fn law_pair_stands_alone<D, P>(
    source: Seq<LineString>,
    target: Seq<LineString>,
    reach: Double,
    angle_tolerance: Double,
    distance_tolerance: Double,
    line_distance: D,
    point_distance: P,
    found: Map<usize, Seq<MatchCandidate>>,
    alone: Map<usize, Seq<MatchCandidate>>,
    measure: spec_fn(Line, Line) -> Double,
    extent: spec_fn(Coord, Coord) -> Double,
    i: usize,
    j: usize,
) where D: Fn(&Line, &Line) -> Double, P: Fn(&Coord, &Coord) -> Double
    requires
        source.len() <= usize::MAX,
        target.len() <= usize::MAX,
        components_in(source).len() <= usize::MAX,
        components_in(target).len() <= usize::MAX,
        i < source.len(),
        j < target.len(),
        matches_found(
            components_in(source),
            components_in(target),
            reach,
            angle_tolerance,
            distance_tolerance,
            line_distance,
            point_distance,
            found,
        ),
        matches_found(
            components_in(seq![source[i as int]]),
            components_in(seq![target[j as int]]),
            reach,
            angle_tolerance,
            distance_tolerance,
            line_distance,
            point_distance,
            alone,
        ),
        forall|a: &Line, b: &Line, d: Double| #[trigger]
            call_ensures(line_distance, (a, b), d) ==> d == measure(*a, *b),
        forall|a: &Coord, b: &Coord, d: Double| #[trigger]
            call_ensures(point_distance, (a, b), d) ==> d == extent(*a, *b),
    ensures
        is_matched(found, j, i) <==> is_matched(alone, 0, 0),
        is_matched(found, j, i) ==> (length_of(found[j], i) matches Some(a) && is_shared_sum(
                source[i as int],
                target[j as int],
                reach,
                angle_tolerance,
                distance_tolerance,
                measure,
                extent,
                a,
            )),
        is_matched(found, j, i) ==> (length_of(alone[0], 0) matches Some(a) && is_shared_sum(
                source[i as int],
                target[j as int],
                reach,
                angle_tolerance,
                distance_tolerance,
                measure,
                extent,
                a,
            )),
{
    let (s, t) = (seq![source[i as int]], seq![target[j as int]]);
    lemma_fewer_lines(source, i as int);
    lemma_fewer_lines(target, j as int);
    law_found_where_geometries_match(
        source,
        target,
        reach,
        angle_tolerance,
        distance_tolerance,
        line_distance,
        point_distance,
        found,
        measure,
        i,
        j,
    );
    law_found_where_geometries_match(
        s,
        t,
        reach,
        angle_tolerance,
        distance_tolerance,
        line_distance,
        point_distance,
        alone,
        measure,
        0,
        0,
    );
    if is_matched(found, j, i) {
        law_length_is_shared_sum(
            source,
            target,
            reach,
            angle_tolerance,
            distance_tolerance,
            line_distance,
            point_distance,
            found,
            measure,
            extent,
            i,
            j,
        );
        law_length_is_shared_sum(
            s,
            t,
            reach,
            angle_tolerance,
            distance_tolerance,
            line_distance,
            point_distance,
            alone,
            measure,
            extent,
            0,
            0,
        );
    }
}

/// One of the geometries has no more lines than all of them.
proof fn lemma_fewer_lines(geometries: Seq<LineString>, i: int)
    requires
        0 <= i < geometries.len(),
    ensures
        components_in(seq![geometries[i]]).len() <= components_in(geometries).len(),
{
    let one = seq![geometries[i]];
    let n = line_count(geometries[i].coords@.len() as int);
    assert(one.drop_last() =~= Seq::empty());
    law_every_line_is_listed(one);
    reveal_with_fuel(total_lines, 2);
    if n > 0 {
        lemma_position(geometries, i, n - 1);
        law_every_line_is_listed(geometries.take(i));
    }
}

/// Two searches of the same geometries with the same tolerances agree, such as loading and then
/// searching on the one hand and both in one on the other: in the tolerances, the lengths and the
/// trees, and in which source is listed for which target, with a length that is the same sum up
/// to the order in which it is added, and equal where no order rounds.
pub proof fn law_searches_agree<D, P>(
    a: Anime,
    b: Anime,
    source: Seq<LineString>,
    target: Seq<LineString>,
    distance_tolerance: Double,
    angle_tolerance: Double,
    line_distance: D,
    point_distance: P,
    found_a: MatchesMap,
    found_b: MatchesMap,
    measure: spec_fn(Line, Line) -> Double,
    extent: spec_fn(Coord, Coord) -> Double,
    i: usize,
    j: usize,
) where D: Fn(&Line, &Line) -> Double, P: Fn(&Coord, &Coord) -> Double
    requires
        a.wf(),
        b.wf(),
        a.loaded_from(source, target, distance_tolerance, angle_tolerance),
        b.loaded_from(source, target, distance_tolerance, angle_tolerance),
        a.can_find(line_distance, point_distance, found_a),
        b.can_find(line_distance, point_distance, found_b),
        forall|a: &Line, b: &Line, d: Double| #[trigger]
            call_ensures(line_distance, (a, b), d) ==> d == measure(*a, *b),
        forall|a: &Coord, b: &Coord, d: Double| #[trigger]
            call_ensures(point_distance, (a, b), d) ==> d == extent(*a, *b),
    ensures
        a.distance_tolerance == b.distance_tolerance,
        a.angle_tolerance == b.angle_tolerance,
        a.source_lens@ == b.source_lens@,
        a.target_lens@ == b.target_lens@,
        a.source_tree.components@ == b.source_tree.components@,
        a.target_tree.components@ == b.target_tree.components@,
        a.target_tree.reach == b.target_tree.reach,
        loaded(a.source_tree.boxes) == loaded(b.source_tree.boxes),
        loaded(a.target_tree.boxes) == loaded(b.target_tree.boxes),
        contents(found_a).contains_key(j) <==> contents(found_b).contains_key(j),
        is_matched(contents(found_a), j, i) <==> is_matched(contents(found_b), j, i),
        is_matched(contents(found_a), j, i) ==> (length_of(contents(found_a)[j], i) matches Some(
            length,
        ) && is_shared_sum(
                source[i as int],
                target[j as int],
                distance_tolerance,
                angle_tolerance,
                distance_tolerance,
                measure,
                extent,
                length,
            )),
        is_matched(contents(found_a), j, i) ==> (length_of(contents(found_b)[j], i) matches Some(
            length,
        ) && is_shared_sum(
                source[i as int],
                target[j as int],
                distance_tolerance,
                angle_tolerance,
                distance_tolerance,
                measure,
                extent,
                length,
            )),
        is_matched(contents(found_a), j, i) && never_rounds(
            source[i as int],
            target[j as int],
            distance_tolerance,
            angle_tolerance,
            distance_tolerance,
            measure,
            extent,
        ) ==> length_of(contents(found_a)[j], i)->0.value() == length_of(
            contents(found_b)[j],
            i,
        )->0.value(),
{
    lemma_limits(a, source, target, distance_tolerance, angle_tolerance);
    let reach = distance_tolerance;
    law_found_where_geometries_match(
        source,
        target,
        reach,
        angle_tolerance,
        distance_tolerance,
        line_distance,
        point_distance,
        contents(found_a),
        measure,
        i,
        j,
    );
    law_found_where_geometries_match(
        source,
        target,
        reach,
        angle_tolerance,
        distance_tolerance,
        line_distance,
        point_distance,
        contents(found_b),
        measure,
        i,
        j,
    );
    if is_matched(contents(found_a), j, i) {
        law_length_is_shared_sum(
            source,
            target,
            reach,
            angle_tolerance,
            distance_tolerance,
            line_distance,
            point_distance,
            contents(found_a),
            measure,
            extent,
            i,
            j,
        );
        law_length_is_shared_sum(
            source,
            target,
            reach,
            angle_tolerance,
            distance_tolerance,
            line_distance,
            point_distance,
            contents(found_b),
            measure,
            extent,
            i,
            j,
        );
        let length_a = length_of(contents(found_a)[j], i)->0;
        let length_b = length_of(contents(found_b)[j], i)->0;
        if never_rounds(
            source[i as int],
            target[j as int],
            reach,
            angle_tolerance,
            distance_tolerance,
            measure,
            extent,
        ) {
            law_exact_sums_agree(
                source[i as int],
                target[j as int],
                reach,
                angle_tolerance,
                distance_tolerance,
                measure,
                extent,
                length_a,
                length_b,
            );
        }
    }
    if contents(found_a).contains_key(j) {
        lemma_listed_in_both(
            source,
            target,
            reach,
            angle_tolerance,
            distance_tolerance,
            line_distance,
            point_distance,
            contents(found_a),
            contents(found_b),
            measure,
            j,
        );
    }
    if contents(found_b).contains_key(j) {
        lemma_listed_in_both(
            source,
            target,
            reach,
            angle_tolerance,
            distance_tolerance,
            line_distance,
            point_distance,
            contents(found_b),
            contents(found_a),
            measure,
            j,
        );
    }
}

/// The same pairs in the same order give the same matches, whatever is seen of pairs that are not
/// accepted.
proof fn lemma_same_tally<D, P>(
    sources: Seq<Component>,
    targets: Seq<Component>,
    angle_tolerance: Double,
    distance_tolerance: Double,
    line_distance: D,
    point_distance: P,
    pairs: Seq<(usize, usize)>,
    seen: Seq<Measured>,
    other: Seq<Measured>,
    measure: spec_fn(Line, Line) -> Double,
    extent: spec_fn(Coord, Coord) -> Double,
) where D: Fn(&Line, &Line) -> Double, P: Fn(&Coord, &Coord) -> Double
    requires
        seen.len() == pairs.len(),
        other.len() == pairs.len(),
        forall|i: int|
            0 <= i < pairs.len() ==> measured_by(
                line_distance,
                point_distance,
                sources[pairs[i].0 as int],
                targets[pairs[i].1 as int],
                #[trigger] seen[i],
                angle_tolerance,
                distance_tolerance,
            ),
        forall|i: int|
            0 <= i < pairs.len() ==> measured_by(
                line_distance,
                point_distance,
                sources[pairs[i].0 as int],
                targets[pairs[i].1 as int],
                #[trigger] other[i],
                angle_tolerance,
                distance_tolerance,
            ),
        forall|a: &Line, b: &Line, d: Double| #[trigger]
            call_ensures(line_distance, (a, b), d) ==> d == measure(*a, *b),
        forall|a: &Coord, b: &Coord, d: Double| #[trigger]
            call_ensures(point_distance, (a, b), d) ==> d == extent(*a, *b),
    ensures
        tally(sources, targets, pairs, seen, angle_tolerance, distance_tolerance) == tally(
            sources,
            targets,
            pairs,
            other,
            angle_tolerance,
            distance_tolerance,
        ),
    decreases pairs.len(),
{
    if pairs.len() > 0 {
        let last = pairs.len() - 1;
        let (rest, seen0, other0) = (pairs.drop_last(), seen.drop_last(), other.drop_last());
        let (s, t) = (sources[pairs[last].0 as int], targets[pairs[last].1 as int]);
        assert forall|i: int| 0 <= i < rest.len() implies measured_by(
            line_distance,
            point_distance,
            sources[rest[i].0 as int],
            targets[rest[i].1 as int],
            #[trigger] seen0[i],
            angle_tolerance,
            distance_tolerance,
        ) by {
            assert(seen0[i] == seen[i] && rest[i] == pairs[i]);
        }
        assert forall|i: int| 0 <= i < rest.len() implies measured_by(
            line_distance,
            point_distance,
            sources[rest[i].0 as int],
            targets[rest[i].1 as int],
            #[trigger] other0[i],
            angle_tolerance,
            distance_tolerance,
        ) by {
            assert(other0[i] == other[i] && rest[i] == pairs[i]);
        }
        lemma_same_tally(
            sources,
            targets,
            angle_tolerance,
            distance_tolerance,
            line_distance,
            point_distance,
            rest,
            seen0,
            other0,
            measure,
            extent,
        );
        assert(measured_by(
            line_distance,
            point_distance,
            s,
            t,
            seen[last],
            angle_tolerance,
            distance_tolerance,
        ));
        assert(measured_by(
            line_distance,
            point_distance,
            s,
            t,
            other[last],
            angle_tolerance,
            distance_tolerance,
        ));
    }
}

/// Two searches of the same geometries with the same tolerances that meet the pairs of lines in the
/// same order find the same matches, candidate by candidate.
pub proof fn law_same_order_same_matches<D, P>(
    a: Anime,
    b: Anime,
    source: Seq<LineString>,
    target: Seq<LineString>,
    distance_tolerance: Double,
    angle_tolerance: Double,
    line_distance: D,
    point_distance: P,
    pairs: Seq<(usize, usize)>,
    seen: Seq<Measured>,
    other: Seq<Measured>,
    measure: spec_fn(Line, Line) -> Double,
    extent: spec_fn(Coord, Coord) -> Double,
) where D: Fn(&Line, &Line) -> Double, P: Fn(&Coord, &Coord) -> Double
    requires
        a.loaded_from(source, target, distance_tolerance, angle_tolerance),
        b.loaded_from(source, target, distance_tolerance, angle_tolerance),
        is_search(
            a.source_tree.components@,
            a.target_tree.components@,
            a.target_tree.reach,
            a.angle_tolerance,
            a.distance_tolerance,
            line_distance,
            point_distance,
            pairs,
            seen,
        ),
        is_search(
            b.source_tree.components@,
            b.target_tree.components@,
            b.target_tree.reach,
            b.angle_tolerance,
            b.distance_tolerance,
            line_distance,
            point_distance,
            pairs,
            other,
        ),
        forall|a: &Line, b: &Line, d: Double| #[trigger]
            call_ensures(line_distance, (a, b), d) ==> d == measure(*a, *b),
        forall|a: &Coord, b: &Coord, d: Double| #[trigger]
            call_ensures(point_distance, (a, b), d) ==> d == extent(*a, *b),
    ensures
        tally(
            a.source_tree.components@,
            a.target_tree.components@,
            pairs,
            seen,
            a.angle_tolerance,
            a.distance_tolerance,
        ) == tally(
            b.source_tree.components@,
            b.target_tree.components@,
            pairs,
            other,
            b.angle_tolerance,
            b.distance_tolerance,
        ),
{
    lemma_same_tally(
        a.source_tree.components@,
        a.target_tree.components@,
        angle_tolerance,
        distance_tolerance,
        line_distance,
        point_distance,
        pairs,
        seen,
        other,
        measure,
        extent,
    );
}

/// The sum of the values of some lengths, without rounding.
pub open spec fn exact_total(parts: Seq<Double>) -> int
    decreases parts.len(),
{
    if parts.len() == 0 {
        0
    } else {
        exact_total(parts.drop_last()) + parts.last().value()
    }
}

/// Taking one of several lengths out takes its value out of their sum.
proof fn lemma_total_without(parts: Seq<Double>, x: int)
    requires
        0 <= x < parts.len(),
    ensures
        exact_total(parts) == exact_total(parts.remove(x)) + parts[x].value(),
    decreases parts.len(),
{
    let rest = parts.drop_last();
    if x == parts.len() - 1 {
        assert(parts.remove(x) =~= rest);
    } else {
        lemma_total_without(rest, x);
        assert(parts.remove(x).drop_last() =~= rest.remove(x));
        assert(parts.remove(x).last() == parts.last());
    }
}

/// What listed pairs of lines share has the same sum in every order.
proof fn lemma_total_in_any_order(
    s: LineString,
    t: LineString,
    a: Seq<(int, int)>,
    b: Seq<(int, int)>,
    extent: spec_fn(Coord, Coord) -> Double,
)
    requires
        a.no_duplicates(),
        b.no_duplicates(),
        forall|p: (int, int)| #[trigger] a.contains(p) <==> b.contains(p),
    ensures
        exact_total(shares(s, t, a, extent)) == exact_total(shares(s, t, b, extent)),
    decreases a.len(),
{
    if a.len() == 0 {
        if b.len() > 0 {
            assert(b.contains(b[0]));
            assert(a.contains(b[0]));
        }
        assert(shares(s, t, a, extent) =~= shares(s, t, b, extent));
    } else {
        let p = a.last();
        assert(a.contains(p));
        let x = choose|x: int| 0 <= x < b.len() && b[x] == p;
        let (a0, b0) = (a.drop_last(), b.remove(x));
        assert forall|q: (int, int)| #[trigger] a0.contains(q) <==> b0.contains(q) by {
            if a0.contains(q) {
                let y = choose|y: int| 0 <= y < a0.len() && a0[y] == q;
                assert(a[y] == q && q != p);
                assert(a.contains(q));
                let z = choose|z: int| 0 <= z < b.len() && b[z] == q;
                assert(b0[if z < x { z } else { z - 1 }] == q);
            }
            if b0.contains(q) {
                let z = choose|z: int| 0 <= z < b0.len() && b0[z] == q;
                assert(b[if z < x { z } else { z + 1 }] == q);
                assert(b.contains(q) && q != p);
                assert(a.contains(q));
                let y = choose|y: int| 0 <= y < a.len() && a[y] == q;
                assert(a0[y] == q);
            }
        }
        lemma_total_in_any_order(s, t, a0, b0, extent);
        assert(shares(s, t, a, extent).drop_last() =~= shares(s, t, a0, extent));
        lemma_total_without(shares(s, t, b, extent), x);
        assert(shares(s, t, b, extent).remove(x) =~= shares(s, t, b0, extent));
    }
}

/// No order of adding what the matching lines of two line strings share rounds the sum.
pub open spec fn never_rounds(
    s: LineString,
    t: LineString,
    reach: Double,
    angle_tolerance: Double,
    distance_tolerance: Double,
    measure: spec_fn(Line, Line) -> Double,
    extent: spec_fn(Coord, Coord) -> Double,
) -> bool {
    forall|order: Seq<(int, int)>|
        lists_matching(
            s,
            t,
            order,
            reach,
            angle_tolerance,
            distance_tolerance,
            measure,
        ) ==> total(#[trigger] shares(s, t, order, extent)).value() == exact_total(
            shares(s, t, order, extent),
        )
}

/// Two sums of what the matching lines of two line strings share are equal, where no order of
/// adding rounds.
pub proof fn law_exact_sums_agree(
    s: LineString,
    t: LineString,
    reach: Double,
    angle_tolerance: Double,
    distance_tolerance: Double,
    measure: spec_fn(Line, Line) -> Double,
    extent: spec_fn(Coord, Coord) -> Double,
    a: Double,
    b: Double,
)
    requires
        is_shared_sum(
            s,
            t,
            reach,
            angle_tolerance,
            distance_tolerance,
            measure,
            extent,
            a,
        ),
        is_shared_sum(
            s,
            t,
            reach,
            angle_tolerance,
            distance_tolerance,
            measure,
            extent,
            b,
        ),
        never_rounds(
            s,
            t,
            reach,
            angle_tolerance,
            distance_tolerance,
            measure,
            extent,
        ),
    ensures
        a.value() == b.value(),
{
    let x = choose|order: Seq<(int, int)>|
        {
            &&& lists_matching(
                s,
                t,
                order,
                reach,
                angle_tolerance,
                distance_tolerance,
                measure,
            )
            &&& a == total(#[trigger] shares(s, t, order, extent))
        };
    let y = choose|order: Seq<(int, int)>|
        {
            &&& lists_matching(
                s,
                t,
                order,
                reach,
                angle_tolerance,
                distance_tolerance,
                measure,
            )
            &&& b == total(#[trigger] shares(s, t, order, extent))
        };
    assert forall|p: (int, int)| #[trigger] x.contains(p) <==> y.contains(p) by {
        assert(x.contains((p.0, p.1)) <==> y.contains((p.0, p.1)));
    }
    lemma_total_in_any_order(s, t, x, y, extent);
}

/// A loaded matching stays within the limits of its vectors.
pub proof fn lemma_limits(
    a: Anime,
    source: Seq<LineString>,
    target: Seq<LineString>,
    distance_tolerance: Double,
    angle_tolerance: Double,
)
    requires
        a.loaded_from(source, target, distance_tolerance, angle_tolerance),
    ensures
        source.len() <= usize::MAX,
        target.len() <= usize::MAX,
        components_in(source).len() <= usize::MAX,
        components_in(target).len() <= usize::MAX,
{
    assert(a.source_lens.len() == a.source_lens@.len());
    assert(a.target_lens.len() == a.target_lens@.len());
    assert(a.source_tree.components.len() == a.source_tree.components@.len());
    assert(a.target_tree.components.len() == a.target_tree.components@.len());
}

/// A target that one search lists, another search of the same geometries lists too.
proof fn lemma_listed_in_both<D, P>(
    source: Seq<LineString>,
    target: Seq<LineString>,
    reach: Double,
    angle_tolerance: Double,
    distance_tolerance: Double,
    line_distance: D,
    point_distance: P,
    found: Map<usize, Seq<MatchCandidate>>,
    other: Map<usize, Seq<MatchCandidate>>,
    measure: spec_fn(Line, Line) -> Double,
    j: usize,
) where D: Fn(&Line, &Line) -> Double, P: Fn(&Coord, &Coord) -> Double
    requires
        source.len() <= usize::MAX,
        target.len() <= usize::MAX,
        components_in(source).len() <= usize::MAX,
        components_in(target).len() <= usize::MAX,
        matches_found(
            components_in(source),
            components_in(target),
            reach,
            angle_tolerance,
            distance_tolerance,
            line_distance,
            point_distance,
            found,
        ),
        matches_found(
            components_in(source),
            components_in(target),
            reach,
            angle_tolerance,
            distance_tolerance,
            line_distance,
            point_distance,
            other,
        ),
        forall|a: &Line, b: &Line, d: Double| #[trigger]
            call_ensures(line_distance, (a, b), d) ==> d == measure(*a, *b),
        found.contains_key(j),
    ensures
        other.contains_key(j),
{
    law_found_once(
        components_in(source),
        components_in(target),
        reach,
        angle_tolerance,
        distance_tolerance,
        line_distance,
        point_distance,
        found,
        j,
    );
    let i = found[j][0].source_index;
    assert(lists(found[j], i));
    law_found_where_geometries_match(
        source,
        target,
        reach,
        angle_tolerance,
        distance_tolerance,
        line_distance,
        point_distance,
        found,
        measure,
        i,
        j,
    );
    law_found_where_geometries_match(
        source,
        target,
        reach,
        angle_tolerance,
        distance_tolerance,
        line_distance,
        point_distance,
        other,
        measure,
        i,
        j,
    );
}

/// Lines that are compared have slopes. A line without extent or with a coordinate that is not a
/// number has none, and never matches.
pub proof fn law_compared_lines_have_slopes(s: Component, t: Component, angle_tolerance: Double)
    requires
        is_angle(s.slope, s.degrees),
        is_angle(t.slope, t.degrees),
        comparable(s, t, angle_tolerance),
    ensures
        !s.slope.nan(),
        !t.slope.nan(),
{
    let (x, y) = (normalized(s.degrees), normalized(t.degrees));
    assert(s.degrees.nan() ==> x.nan());
    assert(t.degrees.nan() ==> y.nan());
    assert(x.nan() || y.nan() ==> x.minus(y).absolute().nan());
}

/// A line whose ends are the same point has no slope.
pub proof fn law_no_extent_no_slope(line: Line)
    requires
        line.start.finite(),
        line.end.finite(),
        line.start.x.value() == line.end.x.value(),
        line.start.y.value() == line.end.y.value(),
    ensures
        line.inclination().nan(),
{
    let (dx, dy) = (line.end.x.minus(line.start.x), line.end.y.minus(line.start.y));
    assert(line.start.x.negated().value() == -line.start.x.value());
    assert(line.start.y.negated().value() == -line.start.y.value());
    assert(dx.zero() && dy.zero());
}

/// A line with a slope has numbers for coordinates.
pub proof fn law_slope_of_numbers(line: Line)
    requires
        !line.inclination().nan(),
    ensures
        line.start.numeric(),
        line.end.numeric(),
{
    let (dx, dy) = (line.end.x.minus(line.start.x), line.end.y.minus(line.start.y));
    assert(line.start.x.nan() ==> line.start.x.negated().nan());
    assert(line.start.y.nan() ==> line.start.y.negated().nan());
    assert(line.start.x.nan() || line.end.x.nan() ==> dx.nan());
    assert(line.start.y.nan() || line.end.y.nan() ==> dy.nan());
}

/// Matched geometries of finite points have positive lengths.
pub proof fn law_matched_lengths_are_positive<D, P>(
    source: Seq<LineString>,
    target: Seq<LineString>,
    reach: Double,
    angle_tolerance: Double,
    distance_tolerance: Double,
    line_distance: D,
    point_distance: P,
    found: Map<usize, Seq<MatchCandidate>>,
    i: usize,
    j: usize,
) where D: Fn(&Line, &Line) -> Double, P: Fn(&Coord, &Coord) -> Double
    requires
        source.len() <= usize::MAX,
        target.len() <= usize::MAX,
        all_wf(source),
        all_wf(target),
        forall|m: int| 0 <= m < source.len() ==> all_finite((#[trigger] source[m]).coords@),
        forall|m: int| 0 <= m < target.len() ==> all_finite((#[trigger] target[m]).coords@),
        matches_found(
            components_in(source),
            components_in(target),
            reach,
            angle_tolerance,
            distance_tolerance,
            line_distance,
            point_distance,
            found,
        ),
        is_matched(found, j, i),
    ensures
        i < source.len(),
        j < target.len(),
        is_positive(source[i as int].length),
        is_positive(target[j as int].length),
{
    let sources = components_in(source);
    let targets = components_in(target);
    let (pairs, seen) = lemma_search_behind(
        sources,
        targets,
        reach,
        angle_tolerance,
        distance_tolerance,
        line_distance,
        point_distance,
        found,
    );
    law_matched_where_accepted(
        sources,
        targets,
        pairs,
        seen,
        angle_tolerance,
        distance_tolerance,
        j,
        i,
    );
    let p = choose|p: int|
        0 <= p < pairs.len() && #[trigger] accepted(
            sources,
            targets,
            pairs,
            seen,
            angle_tolerance,
            distance_tolerance,
            p,
        ) && sources[pairs[p].0 as int].index == i && targets[pairs[p].1 as int].index == j;
    let (m, n) = (pairs[p].0 as int, pairs[p].1 as int);
    let k = lemma_line_origin(source, m);
    let l = lemma_line_origin(target, n);
    let (s, t) = (source[i as int], target[j as int]);
    assert(s.wf() && t.wf());
    assert(sources[m].degrees == s.degrees@[k] && targets[n].degrees == t.degrees@[l]);
    law_compared_lines_have_slopes(sources[m], targets[n], angle_tolerance);
    assert(!line_at(s.coords@, k).inclination().nan());
    assert(!line_at(t.coords@, l).inclination().nan());
    assert(has_slope(s.coords@) && has_slope(t.coords@));
}

/// No share in the table of matches is a division by zero: every row names a source and a target
/// of positive length, where the points are finite and the identifiers suffice to count the
/// geometries.
pub proof fn law_shares_divide_by_lengths<D, P>(
    a: Anime,
    source: Seq<LineString>,
    target: Seq<LineString>,
    distance_tolerance: Double,
    angle_tolerance: Double,
    line_distance: D,
    point_distance: P,
    found: MatchesMap,
    targets: Seq<usize>,
    r: int,
) where D: Fn(&Line, &Line) -> Double, P: Fn(&Coord, &Coord) -> Double
    requires
        a.wf(),
        a.loaded_from(source, target, distance_tolerance, angle_tolerance),
        all_wf(source),
        all_wf(target),
        forall|m: int| 0 <= m < source.len() ==> all_finite((#[trigger] source[m]).coords@),
        forall|m: int| 0 <= m < target.len() ==> all_finite((#[trigger] target[m]).coords@),
        source.len() <= i32::MAX,
        target.len() <= i32::MAX,
        a.matches.found == Some(found),
        a.can_find(line_distance, point_distance, found),
        lists_targets(targets, contents(found)),
        0 <= r < rows_for(targets, contents(found), a.source_lens@, a.target_lens@).len(),
    ensures
        ({
            let row = rows_for(targets, contents(found), a.source_lens@, a.target_lens@)[r];
            &&& 0 <= row.source_id < source.len()
            &&& 0 <= row.target_id < target.len()
            &&& is_positive(a.source_lens@[row.source_id as int])
            &&& is_positive(a.target_lens@[row.target_id as int])
            &&& row.target_weighted == row.shared_len.over(a.source_lens@[row.source_id as int])
            &&& row.source_weighted == row.shared_len.over(a.target_lens@[row.target_id as int])
        }),
{
    let m = contents(found);
    lemma_limits(a, source, target, distance_tolerance, angle_tolerance);
    let (x, k) = law_row_has_match(targets, m, a.source_lens@, a.target_lens@, r);
    let j = targets[x];
    assert(targets.contains(j));
    let i = m[j][k].source_index;
    assert(lists(m[j], i));
    law_matched_lengths_are_positive(
        source,
        target,
        distance_tolerance,
        angle_tolerance,
        distance_tolerance,
        line_distance,
        point_distance,
        m,
        i,
        j,
    );
}

} // verus!
