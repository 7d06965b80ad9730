//! Partial matches between source and target geometries.
use crate::double::Double;
use crate::geometry::{Coord, Line};
use crate::overlap::{
    common, overlap_range, point_at_x, point_at_y, solve_no_x_overlap, solve_no_y_overlap, x_range,
    y_range,
};
use crate::tree::{all_near_pairs, intersection_candidates, Component, SourceTree, TargetTree};
use std::collections::BTreeMap;
use std::ops::Range;
use vstd::prelude::*;

verus! {

/// Represents a partial source <-> target match
#[derive(Clone, Copy, Debug, PartialEq, Eq, Structural)]
pub struct MatchCandidate {
    /// The index of the source geometry
    pub source_index: usize,
    /// The amount of shared length between two geometries
    pub shared_len: Double,
}

/// The index of a target geometry
pub type TargetIndex = usize;

/// Stores match length
///
/// The key is the index of the target geometry, the entry holds its match candidates.
pub type MatchesMap = BTreeMap<TargetIndex, Vec<MatchCandidate>>;

/// The match candidates by target.
pub open spec fn contents(matches: MatchesMap) -> Map<usize, Seq<MatchCandidate>> {
    matches@.map_values(|v: Vec<MatchCandidate>| v@)
}

/// The encoding of 180.
pub const HALF_TURN: u64 = 0x4066_8000_0000_0000;

/// The encoding of 45.
pub const DIAGONAL: u64 = 0x4046_8000_0000_0000;

/// An angle in degrees, brought to the half-turn from 0 to 180.
pub open spec fn normalized(degrees: Double) -> Double {
    let half_turn = Double { bits: HALF_TURN };
    degrees.plus(half_turn).modulo(half_turn)
}

/// The directions of two lines differ by less than the tolerance.
pub open spec fn tolerant(s: Component, t: Component, angle_tolerance: Double) -> bool {
    normalized(s.degrees).minus(normalized(t.degrees)).absolute().below(angle_tolerance)
}

/// The common horizontal extent of two lines.
pub open spec fn x_overlap(s: Line, t: Line) -> Option<Range<Double>> {
    common(
        Range { start: s.bounds().min.x, end: s.bounds().max.x },
        Range { start: t.bounds().min.x, end: t.bounds().max.x },
    )
}

/// The common vertical extent of two lines.
pub open spec fn y_overlap(s: Line, t: Line) -> Option<Range<Double>> {
    common(
        Range { start: s.bounds().min.y, end: s.bounds().max.y },
        Range { start: t.bounds().min.y, end: t.bounds().max.y },
    )
}

/// Two lines have a similar direction, and lie beside or above each other in part.
pub open spec fn comparable(s: Component, t: Component, angle_tolerance: Double) -> bool {
    tolerant(s, t, angle_tolerance) && (x_overlap(s.line, t.line) is Some || y_overlap(
        s.line,
        t.line,
    ) is Some)
}

/// The ends of the part of the source line that faces the target line: over their common
/// horizontal extent where the source line does not rise steeply, else at their common heights. A
/// vertical line has no horizontal extent, in whichever direction it is drawn.
pub open spec fn shared_part(s: Component, t: Component) -> Option<(Coord, Coord)> {
    if s.degrees.at_most(Double { bits: DIAGONAL }) && !s.slope.infinite() {
        match x_overlap(s.line, t.line) {
            Some(r) => Some(
                (point_at_x(r.start, s.line, s.slope), point_at_x(r.end, s.line, s.slope)),
            ),
            None => None,
        }
    } else {
        match y_overlap(s.line, t.line) {
            Some(r) => Some(
                (point_at_y(r.start, s.line, s.slope), point_at_y(r.end, s.line, s.slope)),
            ),
            None => None,
        }
    }
}

/// `k` is the first position of a source in a list of candidates, or the end where it is not
/// listed.
pub open spec fn is_place(list: Seq<MatchCandidate>, source_index: usize, k: int) -> bool {
    &&& 0 <= k <= list.len()
    &&& k < list.len() ==> list[k].source_index == source_index
    &&& forall|j: int| 0 <= j < k ==> (#[trigger] list[j]).source_index != source_index
}

/// Where a source stands in a list of candidates.
pub open spec fn place(list: Seq<MatchCandidate>, source_index: usize) -> int {
    choose|k: int| is_place(list, source_index, k)
}

/// A list of candidates with a length added to that of a source, which is listed if it was not.
pub open spec fn credited(
    list: Seq<MatchCandidate>,
    source_index: usize,
    shared_len: Double,
) -> Seq<MatchCandidate> {
    let k = place(list, source_index);
    if k < list.len() {
        list.update(
            k,
            MatchCandidate { source_index, shared_len: list[k].shared_len.plus(shared_len) },
        )
    } else {
        list.push(MatchCandidate { source_index, shared_len })
    }
}

/// The candidates of a target; none where there is no entry.
pub open spec fn listed(matches: Map<usize, Seq<MatchCandidate>>, target: usize) -> Seq<
    MatchCandidate,
> {
    if matches.contains_key(target) {
        matches[target]
    } else {
        Seq::empty()
    }
}

/// The matches with a length added to those of a target and a source.
pub open spec fn entered(
    matches: Map<usize, Seq<MatchCandidate>>,
    target: usize,
    source: usize,
    shared_len: Double,
) -> Map<usize, Seq<MatchCandidate>> {
    matches.insert(target, credited(listed(matches, target), source, shared_len))
}

/// What was measured of a pair of lines: their distance, and the length of the shared part.
#[derive(Clone, Copy, Debug, PartialEq, Eq, Structural)]
pub struct Measured {
    pub distance: Double,
    pub shared_len: Double,
}

/// The matches after one pair of lines: comparable lines within the distance tolerance share the
/// measured length.
pub open spec fn judged(
    matches: Map<usize, Seq<MatchCandidate>>,
    s: Component,
    t: Component,
    seen: Measured,
    angle_tolerance: Double,
    distance_tolerance: Double,
) -> Map<usize, Seq<MatchCandidate>> {
    if comparable(s, t, angle_tolerance) && seen.distance.at_most(distance_tolerance) {
        entered(matches, t.index, s.index, seen.shared_len)
    } else {
        matches
    }
}

/// The matches after a list of pairs, each with what was measured of it.
pub open spec fn tally(
    sources: Seq<Component>,
    targets: Seq<Component>,
    pairs: Seq<(usize, usize)>,
    seen: Seq<Measured>,
    angle_tolerance: Double,
    distance_tolerance: Double,
) -> Map<usize, Seq<MatchCandidate>>
    decreases pairs.len(),
{
    if pairs.len() == 0 {
        Map::empty()
    } else {
        judged(
            tally(
                sources,
                targets,
                pairs.drop_last(),
                seen.drop_last(),
                angle_tolerance,
                distance_tolerance,
            ),
            sources[pairs.last().0 as int],
            targets[pairs.last().1 as int],
            seen.last(),
            angle_tolerance,
            distance_tolerance,
        )
    }
}

/// The measurements of a pair come from the two measures, as far as they were needed: the
/// distance of comparable lines, and for lines that are near enough the length of the shared
/// part, which is zero where there is none.
pub open spec fn measured_by<D, P>(
    line_distance: D,
    point_distance: P,
    s: Component,
    t: Component,
    seen: Measured,
    angle_tolerance: Double,
    distance_tolerance: Double,
) -> bool where D: Fn(&Line, &Line) -> Double, P: Fn(&Coord, &Coord) -> Double {
    comparable(s, t, angle_tolerance) ==> {
        &&& call_ensures(line_distance, (&t.line, &s.line), seen.distance)
        &&& seen.distance.at_most(distance_tolerance) ==> match shared_part(s, t) {
            Some(ends) => call_ensures(point_distance, (&ends.0, &ends.1), seen.shared_len),
            None => seen.shared_len == (Double { bits: 0 }),
        }
    }
}

/// `pairs` are the near pairs in some order, and `seen` measurements of them that the two measures
/// gave.
pub open spec fn is_search<D, P>(
    sources: Seq<Component>,
    targets: Seq<Component>,
    reach: Double,
    angle_tolerance: Double,
    distance_tolerance: Double,
    line_distance: D,
    point_distance: P,
    pairs: Seq<(usize, usize)>,
    seen: Seq<Measured>,
) -> bool where D: Fn(&Line, &Line) -> Double, P: Fn(&Coord, &Coord) -> Double {
    &&& all_near_pairs(sources, targets, reach, pairs)
    &&& seen.len() == pairs.len()
    &&& forall|i: int|
        0 <= i < pairs.len() ==> measured_by(
            line_distance,
            point_distance,
            sources[pairs[i].0 as int],
            targets[pairs[i].1 as int],
            #[trigger] seen[i],
            angle_tolerance,
            distance_tolerance,
        )
}

/// `found` are the matches for some order of the near pairs and for measurements that the two
/// measures gave.
pub open spec fn matches_found<D, P>(
    sources: Seq<Component>,
    targets: Seq<Component>,
    reach: Double,
    angle_tolerance: Double,
    distance_tolerance: Double,
    line_distance: D,
    point_distance: P,
    found: Map<usize, Seq<MatchCandidate>>,
) -> bool where D: Fn(&Line, &Line) -> Double, P: Fn(&Coord, &Coord) -> Double {
    exists|pairs: Seq<(usize, usize)>, seen: Seq<Measured>|
        is_search(
            sources,
            targets,
            reach,
            angle_tolerance,
            distance_tolerance,
            line_distance,
            point_distance,
            pairs,
            seen,
        ) && found == #[trigger] tally(
            sources,
            targets,
            pairs,
            seen,
            angle_tolerance,
            distance_tolerance,
        )
}

/// The pairs and the measurements behind the matches that a search has found.
pub proof fn lemma_search_behind<D, P>(
    sources: Seq<Component>,
    targets: Seq<Component>,
    reach: Double,
    angle_tolerance: Double,
    distance_tolerance: Double,
    line_distance: D,
    point_distance: P,
    found: Map<usize, Seq<MatchCandidate>>,
) -> (r: (Seq<(usize, usize)>, Seq<Measured>)) where
    D: Fn(&Line, &Line) -> Double,
    P: Fn(&Coord, &Coord) -> Double,

    requires
        matches_found(
            sources,
            targets,
            reach,
            angle_tolerance,
            distance_tolerance,
            line_distance,
            point_distance,
            found,
        ),
    ensures
        is_search(
            sources,
            targets,
            reach,
            angle_tolerance,
            distance_tolerance,
            line_distance,
            point_distance,
            r.0,
            r.1,
        ),
        found == tally(sources, targets, r.0, r.1, angle_tolerance, distance_tolerance),
        forall|i: int|
            0 <= i < r.0.len() ==> (#[trigger] r.0[i]).0 < sources.len() && r.0[i].1
                < targets.len(),
{
    let (pairs, seen) = choose|pairs: Seq<(usize, usize)>, seen: Seq<Measured>|
        is_search(
            sources,
            targets,
            reach,
            angle_tolerance,
            distance_tolerance,
            line_distance,
            point_distance,
            pairs,
            seen,
        ) && found == #[trigger] tally(
            sources,
            targets,
            pairs,
            seen,
            angle_tolerance,
            distance_tolerance,
        );
    assert forall|i: int| 0 <= i < pairs.len() implies (#[trigger] pairs[i]).0 < sources.len()
        && pairs[i].1 < targets.len() by {
        assert(pairs.contains((pairs[i].0, pairs[i].1)));
    }
    (pairs, seen)
}

/// Brings an angle to the half-turn from 0 to 180.
pub fn normalize(degrees: Double) -> (d: Double)
    ensures
        d == normalized(degrees),
{
    let half_turn = Double { bits: HALF_TURN };
    degrees.add(half_turn).rem(half_turn)
}

/// Whether two lines have a similar direction and lie beside or above each other in part.
pub fn is_comparable(s: &Component, t: &Component, angle_tolerance: Double) -> (b: bool)
    ensures
        b == comparable(*s, *t, angle_tolerance),
{
    let x_deg = normalize(s.degrees);
    let y_deg = normalize(t.degrees);
    if !x_deg.sub(y_deg).abs().lt(angle_tolerance) {
        return false;
    }
    let xbb = s.line.bounding_rect();
    let ybb = t.line.bounding_rect();
    overlap_range(x_range(&xbb), x_range(&ybb)).is_some() || overlap_range(
        y_range(&xbb),
        y_range(&ybb),
    ).is_some()
}

/// The ends of the part of the source line that faces the target line.
pub fn find_shared_part(s: &Component, t: &Component) -> (ends: Option<(Coord, Coord)>)
    ensures
        ends == shared_part(*s, *t),
{
    let xbb = s.line.bounding_rect();
    let ybb = t.line.bounding_rect();
    if s.degrees.le(Double { bits: DIAGONAL }) && !s.slope.is_infinite() {
        match overlap_range(x_range(&xbb), x_range(&ybb)) {
            Some(r) => Some(solve_no_y_overlap(r, &s.line, &s.slope)),
            None => None,
        }
    } else {
        match overlap_range(y_range(&xbb), y_range(&ybb)) {
            Some(r) => Some(solve_no_x_overlap(r, &s.line, &s.slope)),
            None => None,
        }
    }
}

/// A source has one place in a list.
pub proof fn lemma_place(list: Seq<MatchCandidate>, source_index: usize, k: int)
    requires
        is_place(list, source_index, k),
    ensures
        place(list, source_index) == k,
{
    let p = place(list, source_index);
    assert(is_place(list, source_index, p));
    if p < k {
        assert(list[p].source_index != source_index);
    } else if k < p {
        assert(list[k].source_index != source_index);
    }
}

/// Every source has a place in every list.
pub proof fn lemma_has_place(list: Seq<MatchCandidate>, source_index: usize)
    ensures
        is_place(list, source_index, place(list, source_index)),
    decreases list.len(),
{
    if list.len() == 0 {
        assert(is_place(list, source_index, 0));
    } else {
        let rest = list.drop_last();
        lemma_has_place(rest, source_index);
        let k = place(rest, source_index);
        assert forall|j: int| 0 <= j < k implies (#[trigger] list[j]).source_index
            != source_index by {
            assert(rest[j].source_index != source_index);
        }
        if k < rest.len() || list.last().source_index == source_index {
            assert(is_place(list, source_index, k));
        } else {
            assert(is_place(list, source_index, list.len() as int));
        }
    }
}

/// Adds a length to the match of a source and a target, which is entered if it was not.
pub fn enter(matches: &mut MatchesMap, target: usize, source: usize, shared_len: Double)
    ensures
        contents(*final(matches)) == entered(contents(*old(matches)), target, source, shared_len),
{
    let ghost before = contents(*matches);
    let mut list: Vec<MatchCandidate> = match matches.remove(&target) {
        Some(list) => list,
        None => Vec::new(),
    };
    let ghost start = list@;
    assert(start =~= listed(before, target));
    let mut k: usize = 0;
    while k < list.len() && list[k].source_index != source
        invariant
            k <= list@.len(),
            list@ == start,
            forall|j: int| 0 <= j < k ==> (#[trigger] list@[j]).source_index != source,
        decreases list@.len() - k,
    {
        k = k + 1;
    }
    proof {
        lemma_place(start, source, k as int);
    }
    if k < list.len() {
        let total = list[k].shared_len.add(shared_len);
        list.set(k, MatchCandidate { source_index: source, shared_len: total });
    } else {
        list.push(MatchCandidate { source_index: source, shared_len });
    }
    assert(list@ == credited(start, source, shared_len));
    matches.insert(target, list);
    assert(contents(*matches) =~= entered(before, target, source, shared_len));
}

/// Enters what was measured of a pair of lines, where they are comparable and near enough.
pub fn judge(
    matches: &mut MatchesMap,
    s: &Component,
    t: &Component,
    seen: Measured,
    angle_tolerance: Double,
    distance_tolerance: Double,
)
    ensures
        contents(*final(matches)) == judged(
            contents(*old(matches)),
            *s,
            *t,
            seen,
            angle_tolerance,
            distance_tolerance,
        ),
{
    if is_comparable(s, t, angle_tolerance) && seen.distance.le(distance_tolerance) {
        enter(matches, t.index, s.index, seen.shared_len);
    }
}

/// Measures a pair of lines as far as it takes to judge it.
fn measure<D, P>(
    s: &Component,
    t: &Component,
    angle_tolerance: Double,
    distance_tolerance: Double,
    line_distance: &D,
    point_distance: &P,
) -> (seen: Measured) where D: Fn(&Line, &Line) -> Double, P: Fn(&Coord, &Coord) -> Double
    requires
        forall|a: &Line, b: &Line| call_requires(*line_distance, (a, b)),
        forall|a: &Coord, b: &Coord| call_requires(*point_distance, (a, b)),
    ensures
        measured_by(
            *line_distance,
            *point_distance,
            *s,
            *t,
            seen,
            angle_tolerance,
            distance_tolerance,
        ),
{
    let nothing = Double { bits: 0 };
    if !is_comparable(s, t, angle_tolerance) {
        return Measured { distance: nothing, shared_len: nothing };
    }
    let distance = line_distance(&t.line, &s.line);
    if !distance.le(distance_tolerance) {
        return Measured { distance, shared_len: nothing };
    }
    let shared_len = match find_shared_part(s, t) {
        Some((p1, p2)) => point_distance(&p1, &p2),
        None => nothing,
    };
    Measured { distance, shared_len }
}

/// The matches of the source lines and the target lines whose boxes have a point in common.
///
/// `line_distance` measures the distance of a target line and a source line, and
/// `point_distance` that of the two ends of a shared part.
pub fn find_candidate_matches<D, P>(
    source_tree: &SourceTree,
    target_tree: &TargetTree,
    angle_tolerance: Double,
    distance_tolerance: Double,
    line_distance: &D,
    point_distance: &P,
) -> (matches: MatchesMap) where D: Fn(&Line, &Line) -> Double, P: Fn(&Coord, &Coord) -> Double
    requires
        source_tree.wf(),
        target_tree.wf(),
        forall|a: &Line, b: &Line| call_requires(*line_distance, (a, b)),
        forall|a: &Coord, b: &Coord| call_requires(*point_distance, (a, b)),
    ensures
        matches_found(
            source_tree.components@,
            target_tree.components@,
            target_tree.reach,
            angle_tolerance,
            distance_tolerance,
            *line_distance,
            *point_distance,
            contents(matches),
        ),
{
    let mut matches: MatchesMap = BTreeMap::new();
    let candidates = intersection_candidates(source_tree, target_tree);
    let ghost sources = source_tree.components@;
    let ghost targets = target_tree.components@;
    let ghost mut seen: Seq<Measured> = Seq::empty();
    let mut i: usize = 0;
    proof {
        assert(contents(matches) =~= Map::empty());
    }
    while i < candidates.len()
        invariant
            i <= candidates@.len(),
            sources == source_tree.components@,
            targets == target_tree.components@,
            all_near_pairs(sources, targets, target_tree.reach, candidates@),
            forall|a: &Line, b: &Line| call_requires(*line_distance, (a, b)),
            forall|a: &Coord, b: &Coord| call_requires(*point_distance, (a, b)),
            seen.len() == i,
            forall|j: int|
                0 <= j < i ==> measured_by(
                    *line_distance,
                    *point_distance,
                    sources[candidates@[j].0 as int],
                    targets[candidates@[j].1 as int],
                    #[trigger] seen[j],
                    angle_tolerance,
                    distance_tolerance,
                ),
            contents(matches) == tally(
                sources,
                targets,
                candidates@.take(i as int),
                seen,
                angle_tolerance,
                distance_tolerance,
            ),
        decreases candidates@.len() - i,
    {
        let (k, l) = candidates[i];
        proof {
            assert(candidates@.contains((k, l)));
        }
        let s = &source_tree.components[k];
        let t = &target_tree.components[l];
        let shown = measure(
            s,
            t,
            angle_tolerance,
            distance_tolerance,
            line_distance,
            point_distance,
        );
        judge(&mut matches, s, t, shown, angle_tolerance, distance_tolerance);
        proof {
            let upto = candidates@.take(i + 1);
            assert(upto.drop_last() =~= candidates@.take(i as int));
            assert(seen.push(shown).drop_last() =~= seen);
            seen = seen.push(shown);
        }
        i = i + 1;
    }
    assert(candidates@.take(candidates@.len() as int) =~= candidates@);
    matches
}

/// Match candidates belong to existing geometries.
pub open spec fn in_range(
    matches: Map<usize, Seq<MatchCandidate>>,
    n_sources: nat,
    n_targets: nat,
) -> bool {
    forall|t: usize| #[trigger]
        matches.contains_key(t) ==> t < n_targets && forall|k: int|
            0 <= k < matches[t].len() ==> (#[trigger] matches[t][k]).source_index < n_sources
}

/// The matches of existing geometries are in range.
pub proof fn lemma_tally_in_range(
    sources: Seq<Component>,
    targets: Seq<Component>,
    pairs: Seq<(usize, usize)>,
    seen: Seq<Measured>,
    angle_tolerance: Double,
    distance_tolerance: Double,
    n_sources: nat,
    n_targets: nat,
)
    requires
        seen.len() == pairs.len(),
        forall|i: int|
            0 <= i < pairs.len() ==> (#[trigger] pairs[i]).0 < sources.len() && pairs[i].1
                < targets.len(),
        forall|k: int| 0 <= k < sources.len() ==> (#[trigger] sources[k]).index < n_sources,
        forall|k: int| 0 <= k < targets.len() ==> (#[trigger] targets[k]).index < n_targets,
    ensures
        in_range(
            tally(sources, targets, pairs, seen, angle_tolerance, distance_tolerance),
            n_sources,
            n_targets,
        ),
    decreases pairs.len(),
{
    if pairs.len() > 0 {
        let rest = pairs.drop_last();
        assert forall|i: int| 0 <= i < rest.len() implies (#[trigger] rest[i]).0 < sources.len()
            && rest[i].1 < targets.len() by {
            assert(rest[i] == pairs[i]);
        }
        lemma_tally_in_range(
            sources,
            targets,
            rest,
            seen.drop_last(),
            angle_tolerance,
            distance_tolerance,
            n_sources,
            n_targets,
        );
        let before = tally(
            sources,
            targets,
            rest,
            seen.drop_last(),
            angle_tolerance,
            distance_tolerance,
        );
        let last = pairs[pairs.len() - 1];
        let s = sources[last.0 as int];
        let t = targets[last.1 as int];
        let list = listed(before, t.index);
        let after = credited(list, s.index, seen.last().shared_len);
        lemma_has_place(list, s.index);
        assert forall|k: int| 0 <= k < after.len() implies (#[trigger] after[k]).source_index
            < n_sources by {
            if k < list.len() {
                assert(list[k].source_index < n_sources);
            }
        }
    }
}

} // verus!
