//! What the table of matches and interpolated columns are for.
use crate::anime::{Anime, AnimeError};
use crate::double::Double;
use crate::geometry::{Coord, Line, LineString};
use crate::laws::{law_found_once, law_row_for_each_match, total_candidates};
use crate::lines_array::{after_failure, Action, LinesError, Step};
use crate::matches::{contents, MatchCandidate, MatchesMap};
use crate::py_anime::{
    interpolation_shown, is_table, lists_targets, rows_for, rows_of, InterpolatedValue, MatchRow,
};
use crate::search_laws::{lemma_candidate_length, lemma_limits, length_of};
use crate::tree::components_in;
use vstd::prelude::*;

verus! {

/// A row names its source and its target, carries the length that they share, and gives it as a share
/// of the source's and of the target's length.
pub open spec fn stands_for(
    row: MatchRow,
    target: usize,
    c: MatchCandidate,
    source_len: Double,
    target_len: Double,
) -> bool {
    &&& row.source_id == c.source_index as i32
    &&& row.target_id == target as i32
    &&& row.shared_len == c.shared_len
    &&& row.target_weighted == row.shared_len.over(source_len)
    &&& row.source_weighted == row.shared_len.over(target_len)
}

/// How many candidates the first `i` of some targets have.
pub open spec fn candidates_before(
    targets: Seq<usize>,
    matches: Map<usize, Seq<MatchCandidate>>,
    i: int,
) -> int
    decreases i,
{
    if i <= 0 {
        0
    } else {
        candidates_before(targets, matches, i - 1) + matches[targets[i - 1]].len()
    }
}

proof fn lemma_candidates_before(
    targets: Seq<usize>,
    matches: Map<usize, Seq<MatchCandidate>>,
    i: int,
)
    requires
        0 <= i <= targets.len(),
    ensures
        candidates_before(targets, matches, i) == total_candidates(targets.take(i), matches),
        candidates_before(targets, matches, i) >= 0,
    decreases i,
{
    if i > 0 {
        lemma_candidates_before(targets, matches, i - 1);
        assert(targets.take(i).drop_last() =~= targets.take(i - 1));
    } else {
        assert(targets.take(0) =~= Seq::empty());
    }
}

/// The rows of some targets follow each other in the order of the targets and of their candidates,
/// one for each candidate and standing for it.
pub proof fn law_rows_in_place(
    targets: Seq<usize>,
    matches: Map<usize, Seq<MatchCandidate>>,
    source_lens: Seq<Double>,
    target_lens: Seq<Double>,
    i: int,
    k: int,
)
    requires
        0 <= i < targets.len(),
        0 <= k < matches[targets[i]].len(),
    ensures
        ({
            let rows = rows_for(targets, matches, source_lens, target_lens);
            let c = matches[targets[i]][k];
            let n = candidates_before(targets, matches, i) + k;
            &&& 0 <= n < rows.len()
            &&& stands_for(
                rows[n],
                targets[i],
                c,
                source_lens[c.source_index as int],
                target_lens[targets[i] as int],
            )
        }),
    decreases targets.len(),
{
    let rest = targets.drop_last();
    lemma_candidates_before(targets, matches, i);
    law_row_for_each_match(rest, matches, source_lens, target_lens);
    law_row_for_each_match(targets, matches, source_lens, target_lens);
    if i < rest.len() {
        law_rows_in_place(rest, matches, source_lens, target_lens, i, k);
        lemma_candidates_before(rest, matches, i);
        assert(rest.take(i) =~= targets.take(i));
    } else {
        assert(targets.take(i) =~= rest);
        let last = targets.last();
        let tail = rows_of(last, matches[last], source_lens, target_lens);
        assert(tail[k] == rows_for(targets, matches, source_lens, target_lens)[rows_for(
            rest,
            matches,
            source_lens,
            target_lens,
        ).len() + k]);
    }
}

/// The row of candidate `k` of the `i`-th target comes after the rows of all earlier targets and of
/// the earlier candidates of this one, and stands for it.
pub open spec fn in_place(
    rows: Seq<MatchRow>,
    targets: Seq<usize>,
    matches: Map<usize, Seq<MatchCandidate>>,
    source_lens: Seq<Double>,
    target_lens: Seq<Double>,
    i: int,
    k: int,
) -> bool {
    let c = matches[targets[i]][k];
    let n = candidates_before(targets, matches, i) + k;
    &&& 0 <= n < rows.len()
    &&& stands_for(
        rows[n],
        targets[i],
        c,
        source_lens[c.source_index as int],
        target_lens[targets[i] as int],
    )
}

/// The table lists the matched targets in ascending order, and for each of them one row for each of
/// its candidates, in their order, and no other rows.
pub proof fn law_table_by_target(
    rows: Seq<MatchRow>,
    matches: Map<usize, Seq<MatchCandidate>>,
    source_lens: Seq<Double>,
    target_lens: Seq<Double>,
) -> (targets: Seq<usize>)
    requires
        is_table(rows, matches, source_lens, target_lens),
    ensures
        forall|i: int, j: int| 0 <= i < j < targets.len() ==> targets[i] < targets[j],
        forall|t: usize| #[trigger]
            matches.contains_key(t) <==> exists|i: int| 0 <= i < targets.len() && targets[i] == t,
        rows.len() == candidates_before(targets, matches, targets.len() as int),
        forall|i: int, k: int|
            0 <= i < targets.len() && 0 <= k < matches[targets[i]].len() ==> #[trigger] in_place(
                rows,
                targets,
                matches,
                source_lens,
                target_lens,
                i,
                k,
            ),
{
    let targets = choose|targets: Seq<usize>|
        lists_targets(targets, matches) && rows == #[trigger] rows_for(
            targets,
            matches,
            source_lens,
            target_lens,
        );
    assert forall|t: usize| #[trigger] matches.contains_key(t) <==> exists|i: int|
        0 <= i < targets.len() && targets[i] == t by {
        assert(targets.contains(t) <==> matches.contains_key(t));
    }
    assert forall|i: int, k: int|
        0 <= i < targets.len() && 0 <= k < matches[targets[i]].len() implies #[trigger] in_place(
        rows,
        targets,
        matches,
        source_lens,
        target_lens,
        i,
        k,
    ) by {
        law_rows_in_place(targets, matches, source_lens, target_lens, i, k);
    }
    lemma_candidates_before(targets, matches, targets.len() as int);
    law_row_for_each_match(targets, matches, source_lens, target_lens);
    assert(targets.take(targets.len() as int) =~= targets);
    targets
}

/// Every row stands for a candidate of the target that it belongs to.
pub proof fn law_row_stands_for_match(
    rows: Seq<MatchRow>,
    matches: Map<usize, Seq<MatchCandidate>>,
    source_lens: Seq<Double>,
    target_lens: Seq<Double>,
    r: int,
) -> (place: (usize, int))
    requires
        is_table(rows, matches, source_lens, target_lens),
        0 <= r < rows.len(),
    ensures
        matches.contains_key(place.0),
        0 <= place.1 < matches[place.0].len(),
        stands_for(
            rows[r],
            place.0,
            matches[place.0][place.1],
            source_lens[matches[place.0][place.1].source_index as int],
            target_lens[place.0 as int],
        ),
{
    let targets = law_table_by_target(rows, matches, source_lens, target_lens);
    let (i, k) = lemma_row_place(targets, matches, targets.len() as int, r);
    assert(exists|x: int| 0 <= x < targets.len() && targets[x] == targets[i]);
    assert(matches.contains_key(targets[i]));
    assert(in_place(rows, targets, matches, source_lens, target_lens, i, k));
    (targets[i], k)
}

/// Every position among the rows is that of some candidate.
proof fn lemma_row_place(
    targets: Seq<usize>,
    matches: Map<usize, Seq<MatchCandidate>>,
    upto: int,
    r: int,
) -> (place: (int, int))
    requires
        0 <= upto <= targets.len(),
        0 <= r < candidates_before(targets, matches, upto),
    ensures
        0 <= place.0 < upto,
        0 <= place.1 < matches[targets[place.0]].len(),
        r == candidates_before(targets, matches, place.0) + place.1,
    decreases upto,
{
    let before = candidates_before(targets, matches, upto - 1);
    if r < before {
        lemma_row_place(targets, matches, upto - 1, r)
    } else {
        (upto - 1, r - before)
    }
}

/// What the table is for: the row of a target and a source carries the length that the search has
/// found for them, and gives it as a share of the length of the source and of that of the target,
/// as these geometries have them.
pub proof fn law_row_carries_shared_length<D, P>(
    a: Anime,
    source: Seq<LineString>,
    target: Seq<LineString>,
    distance_tolerance: Double,
    angle_tolerance: Double,
    line_distance: D,
    point_distance: P,
    found: MatchesMap,
    rows: Seq<MatchRow>,
    r: int,
) where D: Fn(&Line, &Line) -> Double, P: Fn(&Coord, &Coord) -> Double
    requires
        a.wf(),
        a.loaded_from(source, target, distance_tolerance, angle_tolerance),
        a.matches.found == Some(found),
        a.can_find(line_distance, point_distance, found),
        is_table(rows, contents(found), a.source_lens@, a.target_lens@),
        source.len() <= i32::MAX,
        target.len() <= i32::MAX,
        0 <= r < rows.len(),
    ensures
        ({
            let row = rows[r];
            let (i, j) = (row.source_id as usize, row.target_id as usize);
            &&& 0 <= row.source_id < source.len()
            &&& 0 <= row.target_id < target.len()
            &&& contents(found).contains_key(j)
            &&& length_of(contents(found)[j], i) == Some(row.shared_len)
            &&& row.target_weighted == row.shared_len.over(source[i as int].length)
            &&& row.source_weighted == row.shared_len.over(target[j as int].length)
        }),
{
    let m = contents(found);
    lemma_limits(a, source, target, distance_tolerance, angle_tolerance);
    let (j, k) = law_row_stands_for_match(rows, m, a.source_lens@, a.target_lens@, r);
    law_found_once(
        components_in(source),
        components_in(target),
        distance_tolerance,
        angle_tolerance,
        distance_tolerance,
        line_distance,
        point_distance,
        m,
        j,
    );
    lemma_candidate_length(m[j], k);
    let i = m[j][k].source_index;
    assert(m[j][k].source_index < source.len());
    crate::shape_laws::law_lengths_as_listed(source, i as int);
    crate::shape_laws::law_lengths_as_listed(target, j as int);
}

/// Every match that a search has found has a row.
pub proof fn law_every_match_has_its_row(
    rows: Seq<MatchRow>,
    matches: Map<usize, Seq<MatchCandidate>>,
    source_lens: Seq<Double>,
    target_lens: Seq<Double>,
    target: usize,
    k: int,
) -> (r: int)
    requires
        is_table(rows, matches, source_lens, target_lens),
        matches.contains_key(target),
        0 <= k < matches[target].len(),
    ensures
        0 <= r < rows.len(),
        stands_for(
            rows[r],
            target,
            matches[target][k],
            source_lens[matches[target][k].source_index as int],
            target_lens[target as int],
        ),
{
    let targets = law_table_by_target(rows, matches, source_lens, target_lens);
    let i = choose|i: int| 0 <= i < targets.len() && targets[i] == target;
    assert(in_place(rows, targets, matches, source_lens, target_lens, i, k));
    candidates_before(targets, matches, i) + k
}

/// The column of an interpolation has one value for each target: the last one that was given for it,
/// or zero. An error is shown in its own words.
pub proof fn law_column_of_interpolation(
    interpolated: Result<Vec<InterpolatedValue>, AnimeError>,
    n: nat,
    shown: Result<Vec<Double>, String>,
    target: int,
    k: int,
)
    requires
        interpolation_shown(interpolated, n, shown),
        interpolated matches Ok(values) ==> forall|i: int|
            0 <= i < values@.len() ==> (#[trigger] values@[i]).target_id < n,
    ensures
        interpolated is Ok <==> shown is Ok,
        interpolated matches Err(e) ==> shown->Err_0@ == e.message(),
        interpolated matches Ok(values) ==> shown->Ok_0@.len() == n,
        interpolated matches Ok(values) ==> (0 <= target < n && 0 <= k < values@.len()
            && values@[k].target_id == target && (forall|i: int|
            k < i < values@.len() ==> (#[trigger] values@[i]).target_id != target)
            ==> shown->Ok_0@[target] == values@[k].value),
        interpolated matches Ok(values) ==> (0 <= target < n && (forall|i: int|
            0 <= i < values@.len() ==> (#[trigger] values@[i]).target_id != target)
            ==> shown->Ok_0@[target].bits == 0),
{
    if let Ok(values) = interpolated {
        crate::py_anime::lemma_spread_len(n, values@);
        if 0 <= target < n {
            if 0 <= k < values@.len() && values@[k].target_id == target && (forall|i: int|
                k < i < values@.len() ==> (#[trigger] values@[i]).target_id != target) {
                crate::laws::law_last_value_stays(n, values@, target, k);
            }
            if forall|i: int|
                0 <= i < values@.len() ==> (#[trigger] values@[i]).target_id != target {
                crate::laws::law_last_value_stays(n, values@, target, -1);
            }
        }
    }
}

/// An array of other geometries is rejected with the name of what it holds.
pub proof fn law_rejection_names_the_type(text: String)
    ensures
        after_failure(Step::InspectType, text) == Action::Reject(LinesError::NotLineStrings(text)),
        LinesError::NotLineStrings(text).message() == "Input must be LineString array not "@ + text@,
{
}

} // verus!
