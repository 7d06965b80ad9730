use anime::double::Double;
use anime::geometry::{Coord, Line, Rect};
use anime::overlap::{
    overlap_range, solve_no_x_overlap, solve_no_y_overlap, x_range, y_range,
};
use std::ops::Range;

fn dbl(x: f64) -> Double {
    Double { bits: x.to_bits() }
}

fn back(d: Double) -> f64 {
    f64::from_bits(d.bits)
}

fn point(x: f64, y: f64) -> Coord {
    Coord { x: dbl(x), y: dbl(y) }
}

fn range(start: f64, end: f64) -> Range<Double> {
    dbl(start)..dbl(end)
}

#[test]
fn test_x_range() {
    let rect = Rect::new(point(0.0, 0.0), point(10.0, 5.0));
    let range = x_range(&rect);
    assert_eq!(back(range.start), 0.0);
    assert_eq!(back(range.end), 10.0);
}

#[test]
fn test_y_range() {
    let rect = Rect::new(point(0.0, 0.0), point(10.0, 5.0));
    let range = y_range(&rect);
    assert_eq!(back(range.start), 0.0);
    assert_eq!(back(range.end), 5.0);
}

#[test]
fn corners_in_any_order() {
    let rect = Rect::new(point(10.0, 0.0), point(-1.0, 5.0));
    assert_eq!(x_range(&rect), range(-1.0, 10.0));
    assert_eq!(y_range(&rect), range(0.0, 5.0));
}

#[test]
fn test_overlap_range_with_overlap() {
    let r1 = range(0.0, 10.0);
    let r2 = range(5.0, 15.0);
    let overlap = overlap_range(r1, r2);
    assert!(overlap.is_some());
    let overlap = overlap.unwrap();
    assert_eq!(back(overlap.start), 5.0);
    assert_eq!(back(overlap.end), 10.0);
}

#[test]
fn test_overlap_range_no_overlap() {
    let r1 = range(0.0, 5.0);
    let r2 = range(10.0, 15.0);
    let overlap = overlap_range(r1, r2);
    assert!(overlap.is_none());
}

#[test]
fn test_overlap_range_touching() {
    let r1 = range(0.0, 5.0);
    let r2 = range(5.0, 10.0);
    let overlap = overlap_range(r1, r2);
    assert!(overlap.is_some());
    let overlap = overlap.unwrap();
    assert_eq!(back(overlap.start), 5.0);
    assert_eq!(back(overlap.end), 5.0);
}

#[test]
fn test_overlap_range_complete_overlap() {
    let r1 = range(0.0, 10.0);
    let r2 = range(2.0, 8.0);
    let overlap = overlap_range(r1, r2);
    assert!(overlap.is_some());
    let overlap = overlap.unwrap();
    assert_eq!(back(overlap.start), 2.0);
    assert_eq!(back(overlap.end), 8.0);
}

#[test]
fn test_overlap_range_reverse_order() {
    let r1 = range(5.0, 15.0);
    let r2 = range(0.0, 10.0);
    let overlap = overlap_range(r1, r2);
    assert!(overlap.is_some());
    let overlap = overlap.unwrap();
    assert_eq!(back(overlap.start), 5.0);
    assert_eq!(back(overlap.end), 10.0);
}

#[test]
fn ends_over_a_range() {
    let line = Line { start: point(1.0, 2.0), end: point(3.0, 3.0) };
    let slope = line.slope();
    assert_eq!(back(slope), 0.5);
    let (p, q) = solve_no_y_overlap(range(2.0, 3.0), &line, &slope);
    assert_eq!((p, q), (point(2.0, 2.5), point(3.0, 3.0)));
}

#[test]
fn ends_at_heights() {
    let line = Line { start: point(1.0, 2.0), end: point(3.0, 10.0) };
    let slope = line.slope();
    assert_eq!(back(slope), 4.0);
    let (p, q) = solve_no_x_overlap(range(4.0, 10.0), &line, &slope);
    assert_eq!((p, q), (point(1.5, 4.0), point(3.0, 10.0)));
}

#[test]
fn ends_of_a_vertical_line() {
    let line = Line { start: point(1.0, 2.0), end: point(1.0, 10.0) };
    let slope = line.slope();
    assert!(slope.is_infinite());
    let (p, q) = solve_no_x_overlap(range(4.0, 6.0), &line, &slope);
    assert_eq!((p, q), (point(1.0, 4.0), point(1.0, 6.0)));
}

#[test]
fn ends_of_a_line_without_extent() {
    let line = Line { start: point(1.0, 2.0), end: point(1.0, 2.0) };
    let slope = line.slope();
    assert!(slope.is_nan());
    let (p, q) = solve_no_x_overlap(range(2.0, 2.0), &line, &slope);
    assert_eq!((p, q), (point(1.0, 2.0), point(1.0, 2.0)));
}

#[test]
fn level_lines_keep_their_height() {
    let line = Line { start: point(0.1, 0.7), end: point(10.3, 0.7) };
    let slope = line.slope();
    let (p, q) = solve_no_y_overlap(range(0.3, 9.9), &line, &slope);
    assert_eq!((p, q), (point(0.3, 0.7), point(9.9, 0.7)));
}

#[test]
fn solving_for_heights_is_undone() {
    let line = Line { start: point(1.0, 2.0), end: point(3.0, 3.0) };
    let slope = line.slope();
    let (p, q) = solve_no_y_overlap(range(-4.0, 9.5), &line, &slope);
    assert_eq!((p, q), (point(-4.0, -0.5), point(9.5, 6.25)));
    let heights = p.y..q.y;
    assert_eq!(solve_no_x_overlap(heights, &line, &slope), (p, q));
}

#[test]
fn overlap_with_itself() {
    assert_eq!(overlap_range(range(-1.5, 7.0), range(-1.5, 7.0)), Some(range(-1.5, 7.0)));
    assert_eq!(overlap_range(range(2.0, 2.0), range(2.0, 2.0)), Some(range(2.0, 2.0)));
}

#[test]
fn slopes_as_computed() {
    let mut k = 1.0;
    while k < 300.0 {
        let line = Line { start: point(0.1 * k, 3.0), end: point(7.7, k / 3.0) };
        let expected = (k / 3.0 - 3.0) / (7.7 - 0.1 * k);
        assert_eq!(back(line.slope()), expected);
        k += 1.0;
    }
}

#[test]
fn overlaps_hold_what_both_ranges_hold() {
    let ends = vec![-2.0, -0.5, 0.0, 0.25, 1.0, 3.0];
    for a in &ends {
        for b in ends.iter().filter(|b| a <= *b) {
            for c in &ends {
                for d in ends.iter().filter(|d| c <= *d) {
                    let one = overlap_range(range(*a, *b), range(*c, *d));
                    let other = overlap_range(range(*c, *d), range(*a, *b));
                    assert_eq!(one, other);
                    for v in &ends {
                        let both = a <= v && v <= b && c <= v && v <= d;
                        let held = match &one {
                            Some(r) => back(r.start) <= *v && *v <= back(r.end),
                            None => false,
                        };
                        assert_eq!(both, held);
                    }
                }
            }
        }
    }
}
