use anime::anime::{Anime, AnimeError};
use anime::double::Double;
use anime::geometry::{Coord, Line, LineString};
use anime::matches::{
    enter, find_candidate_matches, find_shared_part, is_comparable, judge, normalize, MatchCandidate, MatchesMap, Measured,
};
use anime::tree::{
    create_source_rtree, create_target_rtree, intersection_candidates, Component, TarLine,
};
use geo::{Distance, Euclidean, Length};

fn num(x: f64) -> Double {
    Double { bits: x.to_bits() }
}

fn float(d: Double) -> f64 {
    f64::from_bits(d.bits)
}

fn at(x: f64, y: f64) -> Coord {
    Coord { x: num(x), y: num(y) }
}

fn plane_point(c: &Coord) -> geo_types::Point<f64> {
    geo_types::Point::new(float(c.x), float(c.y))
}

fn plane_line(l: &Line) -> geo_types::Line<f64> {
    geo_types::Line::new(plane_point(&l.start), plane_point(&l.end))
}

fn line_distance(a: &Line, b: &Line) -> Double {
    num(Euclidean::distance(&plane_line(a), &plane_line(b)))
}

fn point_distance(a: &Coord, b: &Coord) -> Double {
    num(Euclidean::distance(&plane_point(a), &plane_point(b)))
}

fn line_string(points: &[(f64, f64)]) -> LineString {
    let shape = geo_types::LineString::<f64>::from(points.to_vec());
    let coords: Vec<Coord> = points.iter().map(|p| at(p.0, p.1)).collect();
    let degrees: Vec<Double> = shape
        .lines()
        .map(|l| num(l.slope().atan().to_degrees()))
        .collect();
    let length = num(shape.length::<Euclidean>());
    LineString::new(coords, length, degrees).unwrap()
}

fn matched(
    source: &Vec<LineString>,
    target: &Vec<LineString>,
    distance_tolerance: f64,
    angle_tolerance: f64,
) -> Anime {
    Anime::new(
        source,
        target,
        num(distance_tolerance),
        num(angle_tolerance),
        &line_distance,
        &point_distance,
    )
}

fn component(index: usize, a: (f64, f64), b: (f64, f64)) -> Component {
    let line = Line { start: at(a.0, a.1), end: at(b.0, b.1) };
    let slope = line.slope();
    let degrees = num(float(slope).atan().to_degrees());
    Component { index, line, slope, degrees }
}

fn create_simple_source_target() -> (Vec<LineString>, Vec<LineString>) {
    let source = vec![
        line_string(&[(0.0, 0.0), (10.0, 0.0)]),
        line_string(&[(0.0, 5.0), (10.0, 5.0)]),
    ];
    let target = vec![line_string(&[(0.0, 0.1), (10.0, 0.1)])];
    (source, target)
}

#[test]
fn test_anime_new() {
    let (source, target) = create_simple_source_target();
    let anime = matched(&source, &target, 0.5, 5.0);
    assert_eq!(float(anime.distance_tolerance), 0.5);
    assert_eq!(float(anime.angle_tolerance), 5.0);
    assert_eq!(anime.source_lens.len(), 2);
    assert_eq!(anime.target_lens.len(), 1);
    assert!(anime.matches.get().is_some());
}

#[test]
fn test_anime_load_geometries() {
    let (source, target) = create_simple_source_target();
    let anime = Anime::load_geometries(&source, &target, num(0.5), num(5.0));
    assert_eq!(float(anime.distance_tolerance), 0.5);
    assert_eq!(float(anime.angle_tolerance), 5.0);
    assert_eq!(anime.source_lens.len(), 2);
    assert_eq!(anime.target_lens.len(), 1);
    assert!(anime.matches.get().is_none());
}

#[test]
fn test_anime_find_matches() {
    let (source, target) = create_simple_source_target();
    let mut anime = Anime::load_geometries(&source, &target, num(0.5), num(5.0));
    assert!(anime.matches.get().is_none());
    let result = anime.find_matches(&line_distance, &point_distance);
    assert!(result.is_ok());
    assert!(anime.matches.get().is_some());
}

#[test]
fn test_anime_find_matches_already_matched() {
    let (source, target) = create_simple_source_target();
    let mut anime = matched(&source, &target, 0.5, 5.0);
    // Matches already exist from new()
    let result = anime.find_matches(&line_distance, &point_distance);
    assert!(result.is_err());
    assert!(matches!(result.unwrap_err(), AnimeError::AlreadyMatched(_)));
}

#[test]
fn test_source_lens_calculated() {
    let source = vec![line_string(&[(0.0, 0.0), (10.0, 0.0)])];
    let target = vec![line_string(&[(0.0, 0.1), (10.0, 0.1)])];
    let anime = matched(&source, &target, 0.5, 5.0);
    assert_eq!(anime.source_lens.len(), 1);
    assert_eq!(float(anime.source_lens[0]), 10.0);
}

#[test]
fn test_target_lens_calculated() {
    let source = vec![line_string(&[(0.0, 0.0), (10.0, 0.0)])];
    let target = vec![line_string(&[(0.0, 0.1), (5.0, 0.1)])];
    let anime = matched(&source, &target, 0.5, 5.0);
    assert_eq!(anime.target_lens.len(), 1);
    assert_eq!(float(anime.target_lens[0]), 5.0);
}

#[test]
fn test_parallel_lines_match() {
    let source = vec![line_string(&[(0.0, 0.0), (10.0, 0.0)])];
    let target = vec![line_string(&[(0.0, 0.1), (10.0, 0.1)])];
    let anime = matched(&source, &target, 0.5, 5.0);
    let matches = anime.matches.get().unwrap();
    assert!(matches.contains_key(&0));
    assert!(!matches.is_empty());
    assert_eq!(matches.get(&0).unwrap().len(), 1);
    assert_eq!(matches.get(&0).unwrap()[0].source_index, 0);
    assert_eq!(float(matches.get(&0).unwrap()[0].shared_len), 10.0);
}

#[test]
fn test_distant_lines_no_match() {
    let source = vec![line_string(&[(0.0, 0.0), (10.0, 0.0)])];
    let target = vec![line_string(&[(0.0, 100.0), (10.0, 100.0)])];
    let anime = matched(&source, &target, 0.5, 5.0);
    let matches = anime.matches.get().unwrap();
    assert!(matches.is_empty() || !matches.contains_key(&0));
}

#[test]
fn test_perpendicular_lines_no_match() {
    let source = vec![line_string(&[(0.0, 0.0), (10.0, 0.0)])];
    let target = vec![line_string(&[(5.0, -5.0), (5.0, 5.0)])];
    let anime = matched(&source, &target, 0.5, 5.0);
    let matches = anime.matches.get().unwrap();
    // Perpendicular lines should not match due to angle tolerance
    assert!(matches.is_empty() || !matches.contains_key(&0));
}

#[test]
fn test_multiple_source_to_one_target() {
    let source = vec![
        line_string(&[(0.0, 0.0), (5.0, 0.0)]),
        line_string(&[(5.0, 0.0), (10.0, 0.0)]),
    ];
    let target = vec![line_string(&[(0.0, 0.1), (10.0, 0.1)])];
    let anime = matched(&source, &target, 0.5, 5.0);
    let matches = anime.matches.get().unwrap();
    if let Some(target_matches) = matches.get(&0) {
        // Target should potentially match both source lines
        assert!(!target_matches.is_empty());
    }
    assert_eq!(matches.get(&0).unwrap().len(), 2);
}

#[test]
fn test_match_candidate_structure() {
    let source = vec![line_string(&[(0.0, 0.0), (10.0, 0.0)])];
    let target = vec![line_string(&[(0.0, 0.1), (10.0, 0.1)])];
    let anime = matched(&source, &target, 0.5, 5.0);
    let matches = anime.matches.get().unwrap();
    if let Some(target_matches) = matches.get(&0) {
        for candidate in target_matches {
            assert!(float(candidate.shared_len) >= 0.0);
        }
    }
}

#[test]
fn test_anime_error_display() {
    let err = AnimeError::IncorrectLength;
    assert!(err.to_string().contains("same number"));
    let err = AnimeError::MatchesNotFound;
    assert!(err.to_string().contains("matches"));
    let err = AnimeError::ContainsNull;
    assert!(err.to_string().contains("null"));
}

#[test]
fn already_matched_in_words() {
    let err = AnimeError::AlreadyMatched(MatchesMap::new());
    assert_eq!(err.to_string(), "matches already found.");
}

#[test]
fn test_create_source_rtree() {
    let source = vec![line_string(&[(0.0, 0.0), (10.0, 0.0)])];
    let mut lens = Vec::new();
    let tree = create_source_rtree(&source, &mut lens);
    assert_eq!(lens.len(), 1);
    assert_eq!(float(lens[0]), 10.0);
    assert!(tree.size() > 0);
}

#[test]
fn test_create_target_rtree() {
    let target = vec![line_string(&[(0.0, 0.0), (10.0, 0.0)])];
    let mut lens = Vec::new();
    let tree = create_target_rtree(&target, &mut lens, num(0.5));
    assert_eq!(lens.len(), 1);
    assert_eq!(float(lens[0]), 10.0);
    assert!(tree.size() > 0);
}

#[test]
fn trees_hold_every_line() {
    let geometries = vec![
        line_string(&[(0.0, 0.0), (1.0, 0.0), (1.0, 1.0), (2.0, 3.0)]),
        line_string(&[]),
        line_string(&[(7.0, 7.0)]),
        line_string(&[(4.0, 4.0), (5.0, 4.0), (6.0, 5.0)]),
    ];
    let mut lens = vec![num(1.5)];
    let tree = create_source_rtree(&geometries, &mut lens);
    assert_eq!(tree.size(), 5);
    assert_eq!(lens.len(), 5);
    assert_eq!(float(lens[0]), 1.5);
    assert_eq!(float(lens[2]), 0.0);
    let indices: Vec<usize> = tree.components.iter().map(|c| c.index).collect();
    assert_eq!(indices, vec![0, 0, 0, 3, 3]);
    assert_eq!(float(tree.components[2].slope), 2.0);
    assert!(float(tree.components[1].slope).is_infinite());
}

// Two parallel near-vertical lines can have opposite slope signs (one +89, one -89 degrees)
// depending on whether dx is positive or negative.
#[test]
fn test_near_vertical_parallel_lines() {
    // Going north, leaning very slightly left
    let target = vec![line_string(&[(100.0, 0.0), (99.5, 50.0)])];
    // Close, leaning slightly right
    let source_close = line_string(&[(102.0, 0.0), (102.5, 50.0)]);
    // Far, leaning slightly left
    let source_far = line_string(&[(110.0, 0.0), (109.5, 50.0)]);
    let sources = vec![source_close, source_far];
    let anime = matched(&sources, &target, 15.0, 20.0);
    let matches = anime.matches.get().unwrap();
    if let Some(target_matches) = matches.get(&0) {
        assert_eq!(
            target_matches.len(),
            2,
            "Both near-vertical parallel lines should match regardless of slope sign"
        );
        let source_indices: Vec<usize> = target_matches.iter().map(|m| m.source_index).collect();
        assert!(
            source_indices.contains(&0),
            "Close source (opposite slope sign) should match"
        );
        assert!(
            source_indices.contains(&1),
            "Far source (same slope sign) should match"
        );
    } else {
        panic!("Target should have matches");
    }
}

#[test]
fn test_diagonal_parallel_lines() {
    let target = vec![line_string(&[(0.0, 0.0), (40.0, 50.0)])];
    let source_a = line_string(&[(2.0, 0.0), (42.0, 50.0)]);
    let source_b = line_string(&[(-2.0, 0.0), (38.0, 50.0)]);
    let sources = vec![source_a, source_b];
    let anime = matched(&sources, &target, 5.0, 20.0);
    let matches = anime.matches.get().unwrap();
    if let Some(target_matches) = matches.get(&0) {
        assert_eq!(
            target_matches.len(),
            2,
            "Both diagonal parallel lines should match"
        );
    } else {
        panic!("Target should have matches");
    }
}

#[test]
fn refused_line_strings() {
    let points = vec![at(0.0, 0.0), at(1.0, 0.0)];
    assert!(LineString::new(points, num(1.0), vec![]).is_none());
    // Where a coordinate is not a number the angle is none either, and of the length nothing is asked.
    let points = || vec![at(0.0, 0.0), at(f64::NAN, 0.0)];
    assert!(LineString::new(points(), num(1.0), vec![num(0.0)]).is_none());
    assert!(LineString::new(points(), num(f64::NAN), vec![num(f64::NAN)]).is_some());
    let points = vec![at(0.0, 0.0), at(1.0, 0.0)];
    assert!(LineString::new(points, num(1.0), vec![num(0.0)]).is_some());
    // The angle must be one of the slope.
    let level = || vec![at(0.0, 0.0), at(1.0, 0.0)];
    assert!(LineString::new(level(), num(1.0), vec![num(1.0)]).is_none());
    assert!(LineString::new(level(), num(1.0), vec![num(f64::NAN)]).is_none());
    let falling = || vec![at(0.0, 0.0), at(1.0, -1.0)];
    assert!(LineString::new(falling(), num(1.4), vec![num(45.0)]).is_none());
    assert!(LineString::new(falling(), num(1.4), vec![num(-45.0)]).is_some());
    let down = || vec![at(0.0, 0.0), at(0.0, -1.0)];
    assert!(LineString::new(down(), num(1.0), vec![num(90.0)]).is_none());
    assert!(LineString::new(down(), num(1.0), vec![num(-91.0)]).is_none());
    assert!(LineString::new(down(), num(1.0), vec![num(-90.0)]).is_some());
    // The length of a line with extent is positive.
    assert!(LineString::new(level(), num(0.0), vec![num(0.0)]).is_none());
    assert!(LineString::new(level(), num(f64::NAN), vec![num(0.0)]).is_none());
    let nowhere = || vec![at(1.0, 1.0), at(1.0, 1.0)];
    assert!(LineString::new(nowhere(), num(-1.0), vec![num(f64::NAN)]).is_none());
    assert!(LineString::new(nowhere(), num(0.0), vec![num(f64::NAN)]).is_some());
    assert!(LineString::new(vec![], num(0.0), vec![]).is_some());
    let endless = vec![at(0.0, 0.0), at(f64::INFINITY, 0.0)];
    assert!(LineString::new(endless, num(f64::INFINITY), vec![num(0.0)]).is_some());
}

#[test]
fn lengths_of_several_lines_add_up() {
    let source = vec![line_string(&[(0.0, 0.0), (4.0, 0.0), (10.0, 0.0)])];
    let target = vec![line_string(&[(0.0, 0.1), (10.0, 0.1)])];
    let anime = matched(&source, &target, 0.5, 5.0);
    let list = anime.matches.get().unwrap().get(&0).unwrap();
    assert_eq!(list.len(), 1);
    assert_eq!(float(list[0].shared_len), 10.0);
}

#[test]
fn a_second_search_changes_nothing() {
    let (source, target) = create_simple_source_target();
    let mut anime = matched(&source, &target, 0.5, 5.0);
    let before = anime.matches.get().unwrap().get(&0).unwrap().clone();
    match anime.find_matches(&line_distance, &point_distance) {
        Err(AnimeError::AlreadyMatched(again)) => assert_eq!(again.get(&0), Some(&before)),
        _ => panic!("matches were there already"),
    }
    assert_eq!(anime.matches.get().unwrap().get(&0), Some(&before));
}

#[test]
fn clones_search_alike() {
    let (source, target) = create_simple_source_target();
    let mut anime = Anime::load_geometries(&source.clone(), &target, num(0.5), num(5.0));
    let mut copy = anime.clone();
    assert_eq!(copy.source_tree.size(), 2);
    assert_eq!(copy.target_tree.size(), 1);
    assert_eq!(float(copy.source_lens[1]), 10.0);
    assert!(copy.matches.get().is_none());
    anime.find_matches(&line_distance, &point_distance).unwrap();
    assert!(copy.matches.get().is_none());
    copy.find_matches(&line_distance, &point_distance).unwrap();
    assert_eq!(copy.matches.get(), anime.matches.get());
    assert_eq!(anime.clone().matches.get(), anime.matches.get());
    let err = copy.find_matches(&line_distance, &point_distance).unwrap_err();
    match err.clone() {
        AnimeError::AlreadyMatched(m) => assert_eq!(Some(&m), anime.matches.get()),
        _ => panic!("the copy must be the same error"),
    }
    assert_eq!(AnimeError::ContainsNull.clone().to_string(), "cannot interpolate null values");
}

#[test]
fn loading_and_searching_is_new() {
    let (source, target) = create_simple_source_target();
    let mut anime = Anime::load_geometries(&source, &target, num(0.5), num(5.0));
    anime.find_matches(&line_distance, &point_distance).unwrap();
    let other = matched(&source, &target, 0.5, 5.0);
    assert_eq!(anime.matches.get(), other.matches.get());
}

#[test]
fn distance_tolerance_includes_its_bound() {
    let source = vec![line_string(&[(0.0, 0.0), (10.0, 0.0)])];
    let target = vec![line_string(&[(0.0, 0.5), (10.0, 0.5)])];
    assert!(matched(&source, &target, 0.5, 5.0).matches.get().unwrap().contains_key(&0));
    assert!(matched(&source, &target, 0.49, 5.0).matches.get().unwrap().is_empty());
}

#[test]
fn angle_tolerance_excludes_its_bound() {
    let s = component(0, (0.0, 0.0), (10.0, 0.0));
    let t = component(0, (0.0, 0.0), (10.0, 10.0));
    assert_eq!(float(t.degrees), 45.0);
    assert!(!is_comparable(&s, &t, num(45.0)));
    assert!(is_comparable(&s, &t, num(45.1)));
    assert!(is_comparable(&t, &s, num(45.1)));
}

#[test]
fn lines_without_common_extent_are_not_compared() {
    let s = component(0, (0.0, 0.0), (1.0, 0.0));
    let t = component(0, (2.0, 1.0), (3.0, 1.0));
    assert!(!is_comparable(&s, &t, num(5.0)));
    let t = component(0, (1.0, 1.0), (3.0, 1.0));
    assert!(is_comparable(&s, &t, num(5.0)));
}

#[test]
fn angles_in_the_half_turn() {
    assert_eq!(float(normalize(num(0.0))), 0.0);
    assert_eq!(float(normalize(num(45.0))), 45.0);
    assert_eq!(float(normalize(num(-45.0))), 135.0);
    assert_eq!(float(normalize(num(90.0))), 90.0);
    assert_eq!(float(normalize(num(-90.0))), 90.0);
    assert!(float(normalize(num(f64::NAN))).is_nan());
    let mut a = -90.0;
    while a <= 90.0 {
        assert_eq!(float(normalize(num(a))), (a + 180.0) % 180.0);
        assert!(float(normalize(num(a))) < 180.0);
        a += 0.37;
    }
}

#[test]
fn steep_lines_have_similar_directions() {
    let rising = component(0, (0.0, 0.0), (0.5, 50.0));
    let falling = component(0, (0.0, 0.0), (-0.5, 50.0));
    assert!(float(rising.slope) > 0.0 && float(falling.slope) < 0.0);
    let angle = float(normalize(rising.degrees)) - float(normalize(falling.degrees));
    assert!(angle.abs() < 1.2);
    assert!(is_comparable(&rising, &falling, num(1.2)));
    assert!(is_comparable(&falling, &rising, num(1.2)));
    // Level lines that rise and fall a little lie at both ends of the half-turn.
    let up = component(0, (0.0, 0.0), (50.0, 0.5));
    let down = component(0, (0.0, 0.0), (50.0, -0.5));
    assert!(!is_comparable(&up, &down, num(170.0)));
}

#[test]
fn shared_parts() {
    let flat = component(0, (0.0, 0.0), (10.0, 5.0));
    let beside = component(0, (4.0, 3.0), (20.0, 11.0));
    let (p, q) = find_shared_part(&flat, &beside).unwrap();
    assert_eq!((float(p.x), float(p.y)), (4.0, 2.0));
    assert_eq!((float(q.x), float(q.y)), (10.0, 5.0));
    let upright = component(0, (1.0, 0.0), (1.0, 10.0));
    let next = component(0, (2.0, 6.0), (2.0, 12.0));
    let (p, q) = find_shared_part(&upright, &next).unwrap();
    assert_eq!((float(p.x), float(p.y)), (1.0, 6.0));
    assert_eq!((float(q.x), float(q.y)), (1.0, 10.0));
    // A flat line shares nothing with one that is only above it.
    let far = component(0, (30.0, 1.0), (40.0, 6.0));
    assert!(find_shared_part(&flat, &far).is_none());
    // Falling lines count as flat, however steep they are.
    let falling = component(0, (0.0, 10.0), (1.0, 0.0));
    let other = component(0, (0.5, 10.0), (1.5, 0.0));
    let (p, q) = find_shared_part(&falling, &other).unwrap();
    assert_eq!((float(p.x), float(p.y)), (0.5, 5.0));
    assert_eq!((float(q.x), float(q.y)), (1.0, 0.0));
}

#[test]
fn vertical_line_drawn_downwards() {
    let source = vec![line_string(&[(5.0, 10.0), (5.0, 0.0)])];
    let target = vec![line_string(&[(5.0, 0.0), (5.0, 10.0)])];
    let source_tree = create_source_rtree(&source, &mut vec![]);
    let target_tree = create_target_rtree(&target, &mut vec![], num(0.5));
    assert_eq!(float(source_tree.components[0].degrees), -90.0);
    let found = find_candidate_matches(
        &source_tree,
        &target_tree,
        num(5.0),
        num(0.5),
        &line_distance,
        &point_distance,
    );
    assert_eq!(found.len(), 1);
    assert_eq!(
        found.get(&0),
        Some(&vec![MatchCandidate { source_index: 0, shared_len: num(10.0) }])
    );
    let down = component(0, (5.0, 10.0), (5.0, 0.0));
    let beside = component(0, (5.5, 4.0), (5.5, 12.0));
    assert_eq!(find_shared_part(&down, &beside), Some((at(5.0, 4.0), at(5.0, 10.0))));
    let above = component(0, (5.0, 11.0), (5.0, 12.0));
    assert_eq!(find_shared_part(&down, &above), None);
}

#[test]
fn drawing_direction_does_not_decide() {
    let lines = vec![
        vec![(0.0, 0.0), (10.0, 0.0), (10.0, 10.0)],
        vec![(0.0, 0.2), (9.0, 0.3)],
        vec![(10.1, 1.0), (10.1, 9.0), (14.0, 12.0)],
        vec![(3.0, 3.0), (3.0, 3.0)],
        vec![(11.0, 9.9), (13.5, 12.2)],
    ];
    let drawn = |reverse: bool| -> Vec<LineString> {
        lines
            .iter()
            .map(|l| {
                let mut points = l.clone();
                if reverse {
                    points.reverse();
                }
                line_string(&points)
            })
            .collect()
    };
    let pairs = |source: bool, target: bool| {
        let anime = matched(&drawn(source), &drawn(target), 0.5, 6.0);
        let mut pairs: Vec<(usize, usize)> = Vec::new();
        for (target, list) in anime.matches.get().unwrap() {
            for candidate in list {
                pairs.push((*target, candidate.source_index));
            }
        }
        pairs.sort();
        (anime.source_lens, anime.target_lens, pairs)
    };
    let straight = pairs(false, false);
    assert!(straight.2.contains(&(0, 1)) && straight.2.contains(&(0, 2)));
    assert!(!straight.2.contains(&(3, 3)));
    assert_eq!(pairs(true, false), straight);
    assert_eq!(pairs(false, true), straight);
    assert_eq!(pairs(true, true), straight);
}

#[test]
fn a_pair_stands_alone() {
    let source = vec![
        line_string(&[(50.0, 0.0), (60.0, 0.0)]),
        line_string(&[(0.0, 0.0), (4.0, 0.0), (10.0, 0.0), (10.0, 8.0)]),
        line_string(&[(1.0, 0.1), (3.0, 0.1)]),
    ];
    let target = vec![
        line_string(&[(52.0, 0.25), (58.0, 0.25)]),
        line_string(&[(2.0, 0.25), (8.0, 0.25)]),
        line_string(&[(10.25, 1.0), (10.25, 5.0)]),
    ];
    let all = matched(&source, &target, 0.5, 5.0);
    let all = all.matches.get().unwrap();
    for i in 0..source.len() {
        for j in 0..target.len() {
            let alone = matched(&vec![source[i].clone()], &vec![target[j].clone()], 0.5, 5.0);
            let listed = all
                .get(&j)
                .and_then(|l| l.iter().find(|c| c.source_index == i))
                .map(|c| c.shared_len);
            let single = alone.matches.get().unwrap().get(&0).map(|l| l[0].shared_len);
            assert_eq!(listed, single);
        }
    }
    assert_eq!(float(all.get(&1).unwrap().iter().find(|c| c.source_index == 1).unwrap().shared_len), 6.0);
    assert_eq!(float(all.get(&2).unwrap()[0].shared_len), 4.0);
}

#[test]
fn lines_without_numbers_never_match() {
    let mut source = vec![line_string(&[(0.0, 0.0), (10.0, 0.0)])];
    let mut target = vec![line_string(&[(0.0, 0.1), (10.0, 0.1)])];
    for _ in 0..8 {
        source.push(line_string(&[(0.0, 0.0), (f64::NAN, 0.0)]));
        source.push(line_string(&[(0.0, f64::NAN), (10.0, 0.0)]));
        target.push(line_string(&[(f64::NAN, f64::NAN), (10.0, 0.1)]));
    }
    let anime = matched(&source, &target, 0.5, 180.0);
    let matches = anime.matches.get().unwrap();
    assert_eq!(matches.len(), 1);
    assert_eq!(
        matches.get(&0),
        Some(&vec![MatchCandidate { source_index: 0, shared_len: num(10.0) }])
    );
    assert!(float(anime.source_lens[1]).is_nan());
}

#[test]
fn exact_sums_agree_in_any_order() {
    // Sums of small integers are not rounded, so every order of adding gives the same length.
    let points: Vec<(f64, f64)> = (0..21).map(|k| (k as f64, 0.0)).collect();
    let source = vec![line_string(&points)];
    let target = vec![line_string(&[(0.0, 0.25), (20.0, 0.25)])];
    let mut backwards = points.clone();
    backwards.reverse();
    let a = matched(&source, &target, 0.5, 5.0);
    let b = matched(&vec![line_string(&backwards)], &target, 0.5, 5.0);
    let (a, b) = (a.matches.get().unwrap(), b.matches.get().unwrap());
    assert_eq!(float(a.get(&0).unwrap()[0].shared_len), 20.0);
    assert_eq!(a, b);
}

#[test]
fn lines_without_extent_never_match() {
    let point = line_string(&[(3.0, 3.0), (3.0, 3.0)]);
    assert_eq!(float(point.length), 0.0);
    assert!(float(point.degrees[0]).is_nan());
    let anime = matched(&vec![point.clone()], &vec![point], 1.0, 180.0);
    assert!(anime.matches.get().unwrap().is_empty());
}

#[test]
fn judging_measured_pairs() {
    let s = component(3, (0.0, 0.0), (10.0, 0.0));
    let t = component(7, (0.0, 0.1), (10.0, 0.1));
    let mut found = MatchesMap::new();
    let near = Measured { distance: num(0.1), shared_len: num(2.5) };
    let far = Measured { distance: num(0.6), shared_len: num(2.5) };
    let unknown = Measured { distance: num(f64::NAN), shared_len: num(2.5) };
    judge(&mut found, &s, &t, far, num(5.0), num(0.5));
    judge(&mut found, &s, &t, unknown, num(5.0), num(0.5));
    judge(&mut found, &s, &t, near, num(0.0), num(0.5));
    assert!(found.is_empty());
    judge(&mut found, &s, &t, near, num(5.0), num(0.5));
    assert_eq!(
        found.get(&7),
        Some(&vec![MatchCandidate { source_index: 3, shared_len: num(2.5) }])
    );
}

#[test]
fn entering_lists_each_source_once() {
    let mut found = MatchesMap::new();
    enter(&mut found, 2, 5, num(1.0));
    enter(&mut found, 2, 6, num(2.0));
    enter(&mut found, 2, 5, num(0.5));
    enter(&mut found, 0, 5, num(4.0));
    assert_eq!(found.len(), 2);
    assert_eq!(
        found.get(&2),
        Some(&vec![
            MatchCandidate { source_index: 5, shared_len: num(1.5) },
            MatchCandidate { source_index: 6, shared_len: num(2.0) },
        ])
    );
    assert_eq!(
        found.get(&0),
        Some(&vec![MatchCandidate { source_index: 5, shared_len: num(4.0) }])
    );
}

#[test]
fn envelopes_reach_beyond_their_lines() {
    let line = Line { start: at(3.0, 4.0), end: at(1.0, 8.0) };
    let (lower, upper) = TarLine(line, num(0.5)).envelope();
    assert_eq!((float(lower.x), float(lower.y)), (0.5, 3.5));
    assert_eq!((float(upper.x), float(upper.y)), (3.5, 8.5));
}

// Many lines in a pseudo-random arrangement: the trees give the same pairs as comparing all boxes.
#[test]
fn candidates_are_the_meeting_boxes() {
    let mut state: u64 = 12345;
    let mut next = move || {
        state = state.wrapping_mul(6364136223846793005).wrapping_add(1442695040888963407);
        ((state >> 33) % 2000) as f64 / 10.0 - 100.0
    };
    let mut source = Vec::new();
    let mut target = Vec::new();
    for _ in 0..60 {
        let (x, y) = (next(), next());
        source.push(line_string(&[(x, y), (x + next() / 10.0, y + next() / 10.0)]));
        let (x, y) = (next(), next());
        target.push(line_string(&[(x, y), (x + next() / 10.0, y + next() / 10.0)]));
    }
    let reach = 2.5;
    let (mut source_lens, mut target_lens) = (Vec::new(), Vec::new());
    let sources = create_source_rtree(&source, &mut source_lens);
    let targets = create_target_rtree(&target, &mut target_lens, num(reach));
    let mut pairs = intersection_candidates(&sources, &targets);
    pairs.sort();
    let mut expected = Vec::new();
    for (k, s) in sources.components.iter().enumerate() {
        for (l, t) in targets.components.iter().enumerate() {
            let (a, b) = (plane_line(&s.line), plane_line(&t.line));
            let meets_x = a.start.x.min(a.end.x) <= b.start.x.max(b.end.x) + reach
                && b.start.x.min(b.end.x) - reach <= a.start.x.max(a.end.x);
            let meets_y = a.start.y.min(a.end.y) <= b.start.y.max(b.end.y) + reach
                && b.start.y.min(b.end.y) - reach <= a.start.y.max(a.end.y);
            if meets_x && meets_y {
                expected.push((k, l));
            }
        }
    }
    assert!(!expected.is_empty());
    assert_eq!(pairs, expected);
}
