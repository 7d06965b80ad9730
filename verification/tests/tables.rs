use anime::anime::{Anime, AnimeError};
use anime::double::Double;
use anime::geometry::{Coord, Line, LineString};
use anime::lines_array::{as_geoarrow_lines, Action, Event, LinesError, Step};
use anime::py_anime::{spread_values, InterpolatedValue, MatchRow, PyAnime};

fn val(x: f64) -> Double {
    Double { bits: x.to_bits() }
}

fn level(x0: f64, x1: f64, y: f64) -> LineString {
    let coords = vec![Coord { x: val(x0), y: val(y) }, Coord { x: val(x1), y: val(y) }];
    LineString::new(coords, val(x1 - x0), vec![val(0.0)]).unwrap()
}

fn gap(a: &Line, b: &Line) -> Double {
    a.start.y.sub(b.start.y).abs()
}

fn extent(a: &Coord, b: &Coord) -> Double {
    a.x.sub(b.x).abs()
}

fn example() -> PyAnime {
    let source = vec![level(0.0, 4.0, 0.0), level(4.0, 10.0, 0.0), level(20.0, 24.0, 0.0)];
    let target = vec![level(50.0, 60.0, 0.0), level(2.0, 22.0, 0.25), level(0.0, 2.0, 0.25)];
    PyAnime::new(Ok(source), Ok(target), val(0.5), val(5.0), &gap, &extent).unwrap()
}

#[test]
fn rows_by_target() {
    let rows = example().get_matches().unwrap();
    assert_eq!(rows.len(), 4);
    let ids: Vec<(i32, i32)> = rows.iter().map(|r| (r.target_id, r.source_id)).collect();
    assert!(ids[..3].iter().all(|p| p.0 == 1));
    assert_eq!(ids[3], (2, 0));
    for source in 0..3 {
        assert!(ids[..3].contains(&(1, source)));
    }
    let second = rows.iter().find(|r| r.target_id == 1 && r.source_id == 1).unwrap();
    assert_eq!(
        *second,
        MatchRow {
            source_id: 1,
            target_id: 1,
            shared_len: val(6.0),
            target_weighted: val(1.0),
            source_weighted: val(6.0 / 20.0),
        }
    );
    let third = rows.iter().find(|r| r.target_id == 1 && r.source_id == 2).unwrap();
    assert_eq!(third.shared_len, val(2.0));
    assert_eq!(third.target_weighted, val(0.5));
    assert_eq!(third.source_weighted, val(0.1));
}

#[test]
fn errors_of_either_array_are_handed_on() {
    let lines = || vec![level(0.0, 4.0, 0.0)];
    let refused = PyAnime::new(
        Err(LinesError::CastToWkb),
        Err(LinesError::ConvertWkb),
        val(0.5),
        val(5.0),
        &gap,
        &extent,
    );
    assert!(matches!(refused, Err(LinesError::CastToWkb)));
    let refused = PyAnime::new(
        Ok(lines()),
        Err(LinesError::NotLineStrings("Point(XY)".to_string())),
        val(0.5),
        val(5.0),
        &gap,
        &extent,
    );
    match refused {
        Err(e) => assert_eq!(e.to_string(), "Input must be LineString array not Point(XY)"),
        Ok(_) => panic!("the target must be refused"),
    }
    let py = PyAnime::new(Ok(lines()), Ok(lines()), val(0.5), val(5.0), &gap, &extent).unwrap();
    assert_eq!(py.get_matches().unwrap().len(), 1);
}

#[test]
fn shares_are_of_positive_lengths() {
    let py = example();
    for row in py.get_matches().unwrap() {
        let source_len = py.0.source_lens[row.source_id as usize];
        let target_len = py.0.target_lens[row.target_id as usize];
        assert!(val(0.0).lt(source_len) && val(0.0).lt(target_len));
        assert_eq!(row.target_weighted, row.shared_len.div(source_len));
        assert_eq!(row.source_weighted, row.shared_len.div(target_len));
    }
}

#[test]
fn no_table_without_matches() {
    let anime = Anime::load_geometries(&vec![], &vec![], val(0.5), val(5.0));
    let message = PyAnime(anime).get_matches().unwrap_err();
    assert_eq!(message, "Matches not yet instantiated.");
}

#[test]
fn columns_of_interpolated_values() {
    let values = vec![
        InterpolatedValue { target_id: 2, value: val(7.5) },
        InterpolatedValue { target_id: 1, value: val(1.5) },
        InterpolatedValue { target_id: 2, value: val(8.5) },
    ];
    assert_eq!(spread_values(4, &values), vec![val(0.0), val(1.5), val(8.5), val(0.0)]);
    let py = example();
    let column = py.interpolate_intensive(Ok(values.clone())).unwrap();
    assert_eq!(column, vec![val(0.0), val(1.5), val(8.5)]);
    let column = py.interpolate_extensive(Ok(values)).unwrap();
    assert_eq!(column, vec![val(0.0), val(1.5), val(8.5)]);
}

#[test]
fn interpolation_errors_in_words() {
    let py = example();
    assert_eq!(
        py.interpolate_intensive(Err(AnimeError::IncorrectLength)).unwrap_err(),
        "Variable to interpolate must have the same number of observations as the `target` lines"
    );
    assert_eq!(
        py.interpolate_extensive(Err(AnimeError::ContainsNull)).unwrap_err(),
        "cannot interpolate null values"
    );
    assert_eq!(
        py.interpolate_extensive(Err(AnimeError::MatchesNotFound)).unwrap_err(),
        "`matches` needs to be instantiated with `self.find_matches()`"
    );
}

fn failed() -> Event {
    Event::Failed("Point(XY)".to_string())
}

#[test]
fn native_line_strings_are_accepted() {
    let first = as_geoarrow_lines(Step::ReadNative, Event::Succeeded);
    assert!(matches!(first, Action::Perform(Step::InspectType)));
    let second = as_geoarrow_lines(Step::InspectType, Event::Succeeded);
    assert!(matches!(second, Action::Accept));
}

#[test]
fn binary_is_converted() {
    let action = as_geoarrow_lines(Step::ReadNative, failed());
    assert!(matches!(action, Action::Perform(Step::CastToWkb)));
    let action = as_geoarrow_lines(Step::CastToWkb, Event::Succeeded);
    assert!(matches!(action, Action::Perform(Step::ConvertWkb)));
    let action = as_geoarrow_lines(Step::ConvertWkb, Event::Succeeded);
    assert!(matches!(action, Action::Perform(Step::MakeNative)));
    let action = as_geoarrow_lines(Step::MakeNative, Event::Succeeded);
    assert!(matches!(action, Action::Perform(Step::InspectType)));
}

fn rejected(step: Step) -> LinesError {
    match as_geoarrow_lines(step, failed()) {
        Action::Reject(e) => e,
        _ => panic!("the step must be rejected"),
    }
}

#[test]
fn rejections_in_words() {
    assert_eq!(rejected(Step::CastToWkb).to_string(), "failed to cast to wkb array");
    assert_eq!(rejected(Step::ConvertWkb).to_string(), "Failed to convert from wkb");
    assert_eq!(
        rejected(Step::MakeNative).to_string(),
        "Failed to convert wkb array to native array"
    );
    assert_eq!(
        rejected(Step::InspectType).to_string(),
        "Input must be LineString array not Point(XY)"
    );
}
