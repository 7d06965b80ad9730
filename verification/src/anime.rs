//! The matching of two sets of geometries, and its result.
use crate::double::Double;
use crate::geometry::{Coord, Line, LineString};
use crate::matches::{
    contents, find_candidate_matches, in_range, lemma_search_behind, lemma_tally_in_range,
    matches_found, MatchesMap,
};
use crate::tree::{
    components_in, create_source_rtree, create_target_rtree, lemma_component_index, lengths_of,
    SourceTree, TargetTree,
};
use vstd::prelude::*;

verus! {

/// Anime Error Type
#[derive(Debug)]
pub enum AnimeError {
    IncorrectLength,
    MatchesNotFound,
    AlreadyMatched(MatchesMap),
    ContainsNull,
}

impl Clone for AnimeError {
    /// The same error.
    fn clone(&self) -> (e: AnimeError)
        ensures
            match (*self, e) {
                (AnimeError::IncorrectLength, AnimeError::IncorrectLength) => true,
                (AnimeError::MatchesNotFound, AnimeError::MatchesNotFound) => true,
                (AnimeError::AlreadyMatched(a), AnimeError::AlreadyMatched(b)) => contents(a)
                    == contents(b),
                (AnimeError::ContainsNull, AnimeError::ContainsNull) => true,
                _ => false,
            },
    {
        match self {
            AnimeError::IncorrectLength => AnimeError::IncorrectLength,
            AnimeError::MatchesNotFound => AnimeError::MatchesNotFound,
            AnimeError::AlreadyMatched(m) => AnimeError::AlreadyMatched(m.clone()),
            AnimeError::ContainsNull => AnimeError::ContainsNull,
        }
    }
}

impl AnimeError {
    /// What the error says.
    pub open spec fn message(&self) -> Seq<char> {
        match self {
            AnimeError::IncorrectLength =>
            "Variable to interpolate must have the same number of observations as the `target` lines"@,
            AnimeError::MatchesNotFound =>
            "`matches` needs to be instantiated with `self.find_matches()`"@,
            AnimeError::AlreadyMatched(_) => "matches already found."@,
            AnimeError::ContainsNull => "cannot interpolate null values"@,
        }
    }

    /// The error in words.
    pub fn to_string(&self) -> (s: String)
        ensures
            s@ == self.message(),
    {
        match self {
            AnimeError::IncorrectLength =>
            "Variable to interpolate must have the same number of observations as the `target` lines".to_owned(),
            AnimeError::MatchesNotFound =>
            "`matches` needs to be instantiated with `self.find_matches()`".to_owned(),
            AnimeError::AlreadyMatched(_) => "matches already found.".to_owned(),
            AnimeError::ContainsNull => "cannot interpolate null values".to_owned(),
        }
    }
}

/// A place for matches that is filled at most once.
#[derive(Debug)]
pub struct Matches {
    pub found: Option<MatchesMap>,
}

impl Clone for Matches {
    /// A place with the same matches.
    fn clone(&self) -> (m: Matches)
        ensures
            m.same_matches(self),
    {
        match &self.found {
            Some(found) => Matches { found: Some(found.clone()) },
            None => Matches { found: None },
        }
    }
}

impl Matches {
    /// Both places are empty, or hold the same matches.
    pub open spec fn same_matches(&self, other: &Matches) -> bool {
        match (self.found, other.found) {
            (Some(a), Some(b)) => contents(a) == contents(b),
            (None, None) => true,
            _ => false,
        }
    }

    /// An empty place.
    pub fn new() -> (m: Matches)
        ensures
            m.found is None,
    {
        Matches { found: None }
    }

    /// The matches, if they were found.
    pub fn get(&self) -> (r: Option<&MatchesMap>)
        ensures
            r is Some <==> self.found is Some,
            r matches Some(m) ==> self.found == Some(*m),
    {
        match &self.found {
            Some(m) => Some(m),
            None => None,
        }
    }

    /// Fills the place, or hands the matches back where it is filled already.
    pub fn set(&mut self, matches: MatchesMap) -> (r: Result<(), MatchesMap>)
        ensures
            match r {
                Ok(_) => old(self).found is None && final(self).found == Some(matches),
                Err(m) => old(self).found is Some && *final(self) == *old(self) && m == matches,
            },
    {
        if self.found.is_some() {
            Err(matches)
        } else {
            self.found = Some(matches);
            Ok(())
        }
    }
}

/// Approximate Network Matching, Integration, and Enrichment
///
/// This struct contains all of the information needed to perform
/// and store the results of the ANIME algorithm.
///
/// The `source_tree` and `target_tree` are used to perform the
/// partial matching based on the `distance_tolerance` and
/// `angle_tolerance`. The results of the matching
/// are stored in `matches`.
///
/// The lengths are required for the integration of attributes.
#[derive(Debug)]
pub struct Anime {
    pub distance_tolerance: Double,
    pub angle_tolerance: Double,
    pub source_tree: SourceTree,
    pub source_lens: Vec<Double>,
    pub target_tree: TargetTree,
    pub target_lens: Vec<Double>,
    pub matches: Matches,
}

/// All geometries are well-formed.
pub open spec fn all_wf(geometries: Seq<LineString>) -> bool {
    forall|i: int| 0 <= i < geometries.len() ==> (#[trigger] geometries[i]).wf()
}

impl Clone for Anime {
    /// The same geometries, tolerances and matches.
    fn clone(&self) -> (anime: Anime)
        ensures
            anime.distance_tolerance == self.distance_tolerance,
            anime.angle_tolerance == self.angle_tolerance,
            anime.source_tree.components@ == self.source_tree.components@,
            anime.source_lens@ == self.source_lens@,
            anime.target_tree.components@ == self.target_tree.components@,
            anime.target_tree.reach == self.target_tree.reach,
            anime.target_lens@ == self.target_lens@,
            anime.matches.same_matches(&self.matches),
            self.wf() ==> anime.wf(),
    {
        Anime {
            distance_tolerance: self.distance_tolerance,
            angle_tolerance: self.angle_tolerance,
            source_tree: self.source_tree.clone(),
            source_lens: self.source_lens.clone(),
            target_tree: self.target_tree.clone(),
            target_lens: self.target_lens.clone(),
            matches: self.matches.clone(),
        }
    }
}

impl Anime {
    /// The trees hold the lines of the geometries whose lengths are listed, and matches that were
    /// found belong to these geometries.
    pub open spec fn wf(&self) -> bool {
        &&& self.source_tree.wf()
        &&& self.target_tree.wf()
        &&& forall|k: int|
            0 <= k < self.source_tree.components@.len() ==> (
            #[trigger] self.source_tree.components@[k]).index < self.source_lens@.len()
        &&& forall|k: int|
            0 <= k < self.target_tree.components@.len() ==> (
            #[trigger] self.target_tree.components@[k]).index < self.target_lens@.len()
        &&& self.matches_in_range()
    }

    /// Matches that were found belong to geometries whose lengths are listed.
    pub open spec fn matches_in_range(&self) -> bool {
        self.matches.found matches Some(m) ==> in_range(
            contents(m),
            self.source_lens@.len(),
            self.target_lens@.len(),
        )
    }

    /// The geometries and the tolerances are those of `other`.
    pub open spec fn same_input(&self, other: &Anime) -> bool {
        &&& self.distance_tolerance == other.distance_tolerance
        &&& self.angle_tolerance == other.angle_tolerance
        &&& self.source_tree == other.source_tree
        &&& self.source_lens == other.source_lens
        &&& self.target_tree == other.target_tree
        &&& self.target_lens == other.target_lens
    }

    /// The tolerances are as given, the trees and lengths are those of the given geometries, and
    /// the target boxes reach as far as the distance tolerance.
    pub open spec fn loaded_from(
        &self,
        source: Seq<LineString>,
        target: Seq<LineString>,
        distance_tolerance: Double,
        angle_tolerance: Double,
    ) -> bool {
        &&& self.distance_tolerance == distance_tolerance
        &&& self.angle_tolerance == angle_tolerance
        &&& self.source_tree.components@ == components_in(source)
        &&& self.source_lens@ == lengths_of(source)
        &&& self.target_tree.components@ == components_in(target)
        &&& self.target_tree.reach == distance_tolerance
        &&& self.target_lens@ == lengths_of(target)
    }

    /// `found` are matches that a search with the given measures can find.
    pub open spec fn can_find<D, P>(
        &self,
        line_distance: D,
        point_distance: P,
        found: MatchesMap,
    ) -> bool where D: Fn(&Line, &Line) -> Double, P: Fn(&Coord, &Coord) -> Double {
        matches_found(
            self.source_tree.components@,
            self.target_tree.components@,
            self.target_tree.reach,
            self.angle_tolerance,
            self.distance_tolerance,
            line_distance,
            point_distance,
            contents(found),
        )
    }

    /// Load source and target geometries
    ///
    /// This creates two R* trees of the boxes around each component line of the line strings.
    /// With each line its slope and the index of its line string are stored.
    pub fn load_geometries(
        source: &Vec<LineString>,
        target: &Vec<LineString>,
        distance_tolerance: Double,
        angle_tolerance: Double,
    ) -> (anime: Anime)
        requires
            all_wf(source@),
            all_wf(target@),
        ensures
            anime.wf(),
            anime.loaded_from(source@, target@, distance_tolerance, angle_tolerance),
            anime.source_lens@.len() == source@.len(),
            anime.target_lens@.len() == target@.len(),
            forall|i: int|
                0 <= i < source@.len() ==> anime.source_lens@[i] == (#[trigger] source@[i]).length,
            forall|i: int|
                0 <= i < target@.len() ==> anime.target_lens@[i] == (#[trigger] target@[i]).length,
            anime.matches.found is None,
    {
        let mut source_lens: Vec<Double> = Vec::new();
        let mut target_lens: Vec<Double> = Vec::new();
        let source_tree = create_source_rtree(source, &mut source_lens);
        let target_tree = create_target_rtree(target, &mut target_lens, distance_tolerance);
        proof {
            assert(source.len() == source@.len() && target.len() == target@.len());
            assert(source_lens@ =~= lengths_of(source@));
            assert(target_lens@ =~= lengths_of(target@));
            assert forall|k: int| 0 <= k < source_tree.components@.len() implies (
            #[trigger] source_tree.components@[k]).index < source_lens@.len() by {
                lemma_component_index(source@, k);
            }
            assert forall|k: int| 0 <= k < target_tree.components@.len() implies (
            #[trigger] target_tree.components@[k]).index < target_lens@.len() by {
                lemma_component_index(target@, k);
            }
        }
        Anime {
            distance_tolerance,
            angle_tolerance,
            source_tree,
            source_lens,
            target_tree,
            target_lens,
            matches: Matches::new(),
        }
    }

    /// The matches of the loaded geometries.
    fn search<D, P>(&self, line_distance: &D, point_distance: &P) -> (found: MatchesMap) where
        D: Fn(&Line, &Line) -> Double,
        P: Fn(&Coord, &Coord) -> Double,

        requires
            self.wf(),
            forall|a: &Line, b: &Line| call_requires(*line_distance, (a, b)),
            forall|a: &Coord, b: &Coord| call_requires(*point_distance, (a, b)),
        ensures
            self.can_find(*line_distance, *point_distance, found),
            in_range(contents(found), self.source_lens@.len(), self.target_lens@.len()),
    {
        let found = find_candidate_matches(
            &self.source_tree,
            &self.target_tree,
            self.angle_tolerance,
            self.distance_tolerance,
            line_distance,
            point_distance,
        );
        proof {
            let sources = self.source_tree.components@;
            let targets = self.target_tree.components@;
            let (pairs, seen) = lemma_search_behind(
                sources,
                targets,
                self.target_tree.reach,
                self.angle_tolerance,
                self.distance_tolerance,
                *line_distance,
                *point_distance,
                contents(found),
            );
            lemma_tally_in_range(
                sources,
                targets,
                pairs,
                seen,
                self.angle_tolerance,
                self.distance_tolerance,
                self.source_lens@.len(),
                self.target_lens@.len(),
            );
        }
        found
    }

    /// Find candidate matches between source and target
    ///
    /// The matches can only be found once for each source and target pair.
    pub fn find_matches<D, P>(&mut self, line_distance: &D, point_distance: &P) -> (r: Result<
        &mut Anime,
        AnimeError,
    >) where D: Fn(&Line, &Line) -> Double, P: Fn(&Coord, &Coord) -> Double
        requires
            old(self).wf(),
            forall|a: &Line, b: &Line| call_requires(*line_distance, (a, b)),
            forall|a: &Coord, b: &Coord| call_requires(*point_distance, (a, b)),
        ensures
            match r {
                Ok(anime) => {
                    &&& old(self).matches.found is None
                    &&& anime.wf()
                    &&& anime.same_input(old(self))
                    &&& anime.matches.found matches Some(m) && anime.can_find(
                        *line_distance,
                        *point_distance,
                        m,
                    )
                    &&& *final(self) == *final(anime)
                },
                Err(e) => {
                    &&& old(self).matches.found is Some
                    &&& *final(self) == *old(self)
                    &&& e matches AnimeError::AlreadyMatched(m) && old(self).can_find(
                        *line_distance,
                        *point_distance,
                        m,
                    )
                },
            },
    {
        let found = self.search(line_distance, point_distance);
        match self.matches.set(found) {
            Ok(_) => Ok(self),
            Err(m) => Err(AnimeError::AlreadyMatched(m)),
        }
    }

    /// Insert linestring geometries and find matches
    pub fn new<D, P>(
        source: &Vec<LineString>,
        target: &Vec<LineString>,
        distance_tolerance: Double,
        angle_tolerance: Double,
        line_distance: &D,
        point_distance: &P,
    ) -> (anime: Anime) where D: Fn(&Line, &Line) -> Double, P: Fn(&Coord, &Coord) -> Double
        requires
            all_wf(source@),
            all_wf(target@),
            forall|a: &Line, b: &Line| call_requires(*line_distance, (a, b)),
            forall|a: &Coord, b: &Coord| call_requires(*point_distance, (a, b)),
        ensures
            anime.wf(),
            anime.loaded_from(source@, target@, distance_tolerance, angle_tolerance),
            anime.source_lens@.len() == source@.len(),
            anime.target_lens@.len() == target@.len(),
            forall|i: int|
                0 <= i < source@.len() ==> anime.source_lens@[i] == (#[trigger] source@[i]).length,
            forall|i: int|
                0 <= i < target@.len() ==> anime.target_lens@[i] == (#[trigger] target@[i]).length,
            anime.matches.found matches Some(m) && anime.can_find(
                *line_distance,
                *point_distance,
                m,
            ),
    {
        let mut anime = Anime::load_geometries(
            source,
            target,
            distance_tolerance,
            angle_tolerance,
        );
        let found = anime.search(line_distance, point_distance);
        anime.matches = Matches { found: Some(found) };
        anime
    }
}

} // verus!
