//! What a Python module offers of a matching: its table of matches and interpolated columns.
use crate::anime::{all_wf, Anime, AnimeError};
use crate::double::Double;
use crate::geometry::{Coord, Line, LineString};
use crate::lines_array::LinesError;
use crate::matches::{contents, MatchCandidate, MatchesMap};
use vstd::prelude::*;
use vstd::std_specs::btree::increasing_seq;
use vstd::std_specs::cmp::OrdSpec;

verus! {

/// One row of the table of matches.
#[derive(Clone, Copy, Debug, PartialEq, Eq, Structural)]
pub struct MatchRow {
    pub source_id: i32,
    pub target_id: i32,
    pub shared_len: Double,
    /// The share of the source's length.
    pub target_weighted: Double,
    /// The share of the target's length.
    pub source_weighted: Double,
}

/// The row of a match.
pub open spec fn row(
    target: usize,
    c: MatchCandidate,
    source_lens: Seq<Double>,
    target_lens: Seq<Double>,
) -> MatchRow {
    MatchRow {
        source_id: c.source_index as i32,
        target_id: target as i32,
        shared_len: c.shared_len,
        target_weighted: c.shared_len.over(source_lens[c.source_index as int]),
        source_weighted: c.shared_len.over(target_lens[target as int]),
    }
}

/// The rows of one target.
pub open spec fn rows_of(
    target: usize,
    list: Seq<MatchCandidate>,
    source_lens: Seq<Double>,
    target_lens: Seq<Double>,
) -> Seq<MatchRow> {
    Seq::new(list.len(), |k: int| row(target, list[k], source_lens, target_lens))
}

/// The rows of a list of targets.
pub open spec fn rows_for(
    targets: Seq<usize>,
    matches: Map<usize, Seq<MatchCandidate>>,
    source_lens: Seq<Double>,
    target_lens: Seq<Double>,
) -> Seq<MatchRow>
    decreases targets.len(),
{
    if targets.len() == 0 {
        Seq::empty()
    } else {
        rows_for(targets.drop_last(), matches, source_lens, target_lens) + rows_of(
            targets.last(),
            matches[targets.last()],
            source_lens,
            target_lens,
        )
    }
}

/// Every number is larger than the one before.
pub open spec fn ascending(numbers: Seq<usize>) -> bool {
    forall|i: int, j: int| 0 <= i < j < numbers.len() ==> numbers[i] < numbers[j]
}

/// `targets` lists the targets that have matches, in ascending order.
pub open spec fn lists_targets(
    targets: Seq<usize>,
    matches: Map<usize, Seq<MatchCandidate>>,
) -> bool {
    &&& ascending(targets)
    &&& forall|t: usize| #[trigger] targets.contains(t) <==> matches.contains_key(t)
}

/// `rows` are the rows of all targets that have matches, in ascending order of the targets.
pub open spec fn is_table(
    rows: Seq<MatchRow>,
    matches: Map<usize, Seq<MatchCandidate>>,
    source_lens: Seq<Double>,
    target_lens: Seq<Double>,
) -> bool {
    exists|targets: Seq<usize>|
        lists_targets(targets, matches) && rows == #[trigger] rows_for(
            targets,
            matches,
            source_lens,
            target_lens,
        )
}

/// The targets that have matches, in ascending order.
fn matched_targets(matches: &MatchesMap) -> (targets: Vec<usize>)
    ensures
        lists_targets(targets@, contents(*matches)),
{
    let mut targets: Vec<usize> = Vec::new();
    for entry in it: matches.iter()
        invariant
            increasing_seq(it.seq().map_values(|kv: (&usize, &Vec<MatchCandidate>)| *kv.0)),
            forall|t: usize| #[trigger]
                matches@.contains_key(t) ==> exists|i: int|
                    0 <= i < it.seq().len() && *(#[trigger] it.seq()[i]).0 == t,
            forall|i: int|
                0 <= i < it.seq().len() ==> matches@.contains_key(*(#[trigger] it.seq()[i]).0),
            targets@.len() == it.index(),
            forall|i: int|
                #![trigger targets@[i]]
                #![trigger it.seq()[i]]
                0 <= i < targets@.len() ==> targets@[i] == *it.seq()[i].0,
            ascending(targets@),
    {
        let ghost before = targets@;
        proof {
            let keys = it.seq().map_values(|kv: (&usize, &Vec<MatchCandidate>)| *kv.0);
            lemma_increasing(keys);
            assert forall|i: int| 0 <= i < before.len() implies before[i] < *entry.0 by {
                assert(keys[i] < keys[it.index() as int]);
            }
        }
        targets.push(*entry.0);
    }
    assert forall|t: usize| #[trigger] targets@.contains(t) implies contents(
        *matches,
    ).contains_key(t) by {
        let i = choose|i: int| 0 <= i < targets@.len() && targets@[i] == t;
        assert(targets@[i] == t);
    }
    targets
}

/// Keys come in ascending order.
proof fn lemma_increasing(keys: Seq<usize>)
    requires
        increasing_seq(keys),
    ensures
        ascending(keys),
{
    broadcast use vstd::laws_cmp::group_laws_cmp;

    assert(vstd::laws_cmp::obeys_cmp::<usize>());
    assert forall|i: int, j: int| 0 <= i < j < keys.len() implies keys[i] < keys[j] by {
        assert(keys[i].cmp_spec(&keys[j]) is Less);
    }
}

/// An interpolated value of a target.
#[derive(Clone, Copy, Debug, PartialEq, Eq, Structural)]
pub struct InterpolatedValue {
    pub target_id: usize,
    pub value: Double,
}

/// A column of zeros with each of the values at the place of its target. Of several values for
/// one target the last one stays.
pub open spec fn spread(n: nat, values: Seq<InterpolatedValue>) -> Seq<Double>
    decreases values.len(),
{
    if values.len() == 0 {
        Seq::new(n, |i: int| Double { bits: 0 })
    } else {
        spread(n, values.drop_last()).update(
            values.last().target_id as int,
            values.last().value,
        )
    }
}

/// A column has the given length.
pub proof fn lemma_spread_len(n: nat, values: Seq<InterpolatedValue>)
    requires
        forall|i: int| 0 <= i < values.len() ==> (#[trigger] values[i]).target_id < n,
    ensures
        spread(n, values).len() == n,
    decreases values.len(),
{
    if values.len() > 0 {
        lemma_spread_len(n, values.drop_last());
    }
}

/// A column of `n` values, from the values of some targets.
pub fn spread_values(n: usize, values: &Vec<InterpolatedValue>) -> (column: Vec<Double>)
    requires
        forall|i: int| 0 <= i < values@.len() ==> (#[trigger] values@[i]).target_id < n,
    ensures
        column@ == spread(n as nat, values@),
        column@.len() == n,
{
    let mut column: Vec<Double> = Vec::new();
    let mut k: usize = 0;
    while k < n
        invariant
            k <= n,
            column@ == Seq::new(k as nat, |i: int| Double { bits: 0 }),
        decreases n - k,
    {
        column.push(Double { bits: 0 });
        k = k + 1;
        assert(column@ =~= Seq::new(k as nat, |i: int| Double { bits: 0 }));
    }
    let mut i: usize = 0;
    proof {
        assert(values@.take(0) =~= Seq::<InterpolatedValue>::empty());
    }
    while i < values.len()
        invariant
            i <= values@.len(),
            forall|i: int| 0 <= i < values@.len() ==> (#[trigger] values@[i]).target_id < n,
            column@ == spread(n as nat, values@.take(i as int)),
            column@.len() == n,
        decreases values@.len() - i,
    {
        let v = values[i];
        column.set(v.target_id, v.value);
        assert(values@.take(i + 1).drop_last() =~= values@.take(i as int));
        i = i + 1;
    }
    assert(values@.take(values@.len() as int) =~= values@);
    proof {
        lemma_spread_len(n as nat, values@);
    }
    column
}

/// A matching, as a Python module holds it.
#[derive(Debug)]
pub struct PyAnime(pub Anime);

/// What is said where matches are missing.
pub open spec fn no_matches_message() -> Seq<char> {
    "Matches not yet instantiated."@
}

/// The values that an interpolation gave belong to targets of the matching.
pub open spec fn interpolation_in_range(
    interpolated: Result<Vec<InterpolatedValue>, AnimeError>,
    n: nat,
) -> bool {
    interpolated matches Ok(values) ==> forall|i: int|
        0 <= i < values@.len() ==> (#[trigger] values@[i]).target_id < n
}

/// The column of an interpolation, or what its error says.
pub open spec fn interpolation_shown(
    interpolated: Result<Vec<InterpolatedValue>, AnimeError>,
    n: nat,
    shown: Result<Vec<Double>, String>,
) -> bool {
    match interpolated {
        Ok(values) => shown matches Ok(column) && column@ == spread(n, values@),
        Err(e) => shown matches Err(message) && message@ == e.message(),
    }
}

impl PyAnime {
    /// Matches the source geometries with the target geometries, or hands on why one of them could
    /// not be read, first the source.
    pub fn new<D, P>(
        source: Result<Vec<LineString>, LinesError>,
        target: Result<Vec<LineString>, LinesError>,
        distance_tolerance: Double,
        angle_tolerance: Double,
        line_distance: &D,
        point_distance: &P,
    ) -> (r: Result<PyAnime, LinesError>) where
        D: Fn(&Line, &Line) -> Double,
        P: Fn(&Coord, &Coord) -> Double,

        requires
            source matches Ok(s) ==> all_wf(s@),
            target matches Ok(t) ==> all_wf(t@),
            forall|a: &Line, b: &Line| call_requires(*line_distance, (a, b)),
            forall|a: &Coord, b: &Coord| call_requires(*point_distance, (a, b)),
        ensures
            match (source, target) {
                (Err(e), _) => r matches Err(handed) && handed == e,
                (Ok(_), Err(e)) => r matches Err(handed) && handed == e,
                (Ok(s), Ok(t)) => {
                    &&& r matches Ok(py)
                    &&& py.0.wf()
                    &&& py.0.loaded_from(s@, t@, distance_tolerance, angle_tolerance)
                    &&& py.0.matches.found matches Some(m)
                    &&& py.0.can_find(*line_distance, *point_distance, m)
                },
            },
    {
        let source = match source {
            Ok(s) => s,
            Err(e) => {
                return Err(e);
            },
        };
        let target = match target {
            Ok(t) => t,
            Err(e) => {
                return Err(e);
            },
        };
        let anime = Anime::new(
            &source,
            &target,
            distance_tolerance,
            angle_tolerance,
            line_distance,
            point_distance,
        );
        Ok(PyAnime(anime))
    }

    /// The table of matches, by target and within a target in the order in which its sources
    /// were first met.
    pub fn get_matches(&self) -> (r: Result<Vec<MatchRow>, String>)
        requires
            self.0.matches_in_range(),
        ensures
            match (r, self.0.matches.found) {
                (Ok(rows), Some(m)) => is_table(
                    rows@,
                    contents(m),
                    self.0.source_lens@,
                    self.0.target_lens@,
                ),
                (Err(message), None) => message@ == no_matches_message(),
                _ => false,
            },
    {
        let inner = match self.0.matches.get() {
            Some(m) => m,
            None => {
                return Err("Matches not yet instantiated.".to_owned());
            },
        };
        let ghost m = contents(*inner);
        let ghost source_lens = self.0.source_lens@;
        let ghost target_lens = self.0.target_lens@;
        let targets = matched_targets(inner);
        let mut rows: Vec<MatchRow> = Vec::new();
        let mut i: usize = 0;
        assert(rows@ =~= rows_for(targets@.take(0), m, source_lens, target_lens));
        while i < targets.len()
            invariant
                i <= targets@.len(),
                self.0.matches_in_range(),
                self.0.matches.found == Some(*inner),
                m == contents(*inner),
                source_lens == self.0.source_lens@,
                target_lens == self.0.target_lens@,
                lists_targets(targets@, m),
                rows@ == rows_for(targets@.take(i as int), m, source_lens, target_lens),
            decreases targets@.len() - i,
        {
            let target = targets[i];
            let ghost before = rows@;
            assert(targets@.contains(target));
            assert(m.contains_key(target));
            let target_len = self.0.target_lens[target];
            if let Some(items) = inner.get(&target) {
                assert(m[target] =~= items@);
                let ghost done = rows_of(target, items@, source_lens, target_lens);
                let mut k: usize = 0;
                assert(before + done.take(0) =~= before);
                while k < items.len()
                    invariant
                        k <= items@.len(),
                        self.0.matches_in_range(),
                        self.0.matches.found == Some(*inner),
                        m == contents(*inner),
                        m.contains_key(target),
                        m[target] == items@,
                        source_lens == self.0.source_lens@,
                        target_lens == self.0.target_lens@,
                        target_len == target_lens[target as int],
                        done == rows_of(target, items@, source_lens, target_lens),
                        rows@ == before + done.take(k as int),
                    decreases items@.len() - k,
                {
                    let c = items[k];
                    assert(m[target][k as int].source_index < source_lens.len());
                    let source_len = self.0.source_lens[c.source_index];
                    rows.push(
                        MatchRow {
                            source_id: c.source_index as i32,
                            target_id: target as i32,
                            shared_len: c.shared_len,
                            target_weighted: c.shared_len.div(source_len),
                            source_weighted: c.shared_len.div(target_len),
                        },
                    );
                    assert(done.take(k + 1) =~= done.take(k as int).push(done[k as int]));
                    assert(rows@ =~= before + done.take(k + 1));
                    k = k + 1;
                }
                assert(done.take(items@.len() as int) =~= done);
            }
            assert(targets@.take(i + 1).drop_last() =~= targets@.take(i as int));
            i = i + 1;
        }
        assert(targets@.take(targets@.len() as int) =~= targets@);
        Ok(rows)
    }

    fn show(
        &self,
        interpolated: Result<Vec<InterpolatedValue>, AnimeError>,
    ) -> (r: Result<Vec<Double>, String>)
        requires
            interpolation_in_range(interpolated, self.0.target_lens@.len()),
        ensures
            interpolation_shown(interpolated, self.0.target_lens@.len(), r),
    {
        match interpolated {
            Ok(values) => Ok(spread_values(self.0.target_lens.len(), &values)),
            Err(e) => Err(e.to_string()),
        }
    }

    /// The column of an interpolated intensive variable, with zero for every target without a
    /// match.
    pub fn interpolate_intensive(
        &self,
        interpolated: Result<Vec<InterpolatedValue>, AnimeError>,
    ) -> (r: Result<Vec<Double>, String>)
        requires
            interpolation_in_range(interpolated, self.0.target_lens@.len()),
        ensures
            interpolation_shown(interpolated, self.0.target_lens@.len(), r),
    {
        self.show(interpolated)
    }

    /// The column of an interpolated extensive variable, with zero for every target without a
    /// match.
    pub fn interpolate_extensive(
        &self,
        interpolated: Result<Vec<InterpolatedValue>, AnimeError>,
    ) -> (r: Result<Vec<Double>, String>)
        requires
            interpolation_in_range(interpolated, self.0.target_lens@.len()),
        ensures
            interpolation_shown(interpolated, self.0.target_lens@.len(), r),
    {
        self.show(interpolated)
    }
}

} // verus!
