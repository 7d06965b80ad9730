//! Points, lines and line strings in the plane.
use crate::double::Double;
use vstd::prelude::*;

verus! {

/// A point.
#[derive(Clone, Copy, Debug, PartialEq, Eq, Structural)]
pub struct Coord {
    pub x: Double,
    pub y: Double,
}

impl Coord {
    /// Both coordinates are numbers.
    pub open spec fn numeric(self) -> bool {
        !self.x.nan() && !self.y.nan()
    }

    /// Both coordinates are finite.
    pub open spec fn finite(self) -> bool {
        self.x.finite() && self.y.finite()
    }

    /// Whether both coordinates are finite.
    pub fn is_finite(&self) -> (b: bool)
        ensures
            b == self.finite(),
    {
        self.x.is_finite() && self.y.is_finite()
    }
}

/// A straight line between two points.
#[derive(Clone, Copy, Debug, PartialEq, Eq, Structural)]
pub struct Line {
    pub start: Coord,
    pub end: Coord,
}

/// A rectangle with sides parallel to the axes.
#[derive(Clone, Copy, Debug, PartialEq, Eq, Structural)]
pub struct Rect {
    pub min: Coord,
    pub max: Coord,
}

/// The two numbers in order.
pub open spec fn ordered(a: Double, b: Double) -> (Double, Double) {
    if a.below(b) {
        (a, b)
    } else {
        (b, a)
    }
}

fn order(a: Double, b: Double) -> (r: (Double, Double))
    ensures
        r == ordered(a, b),
{
    if a.lt(b) {
        (a, b)
    } else {
        (b, a)
    }
}

impl Rect {
    /// The rectangle with two opposite corners `c1` and `c2`.
    pub open spec fn spanned(c1: Coord, c2: Coord) -> Rect {
        let (min_x, max_x) = ordered(c1.x, c2.x);
        let (min_y, max_y) = ordered(c1.y, c2.y);
        Rect { min: Coord { x: min_x, y: min_y }, max: Coord { x: max_x, y: max_y } }
    }

    /// The rectangle that spans two opposite corners.
    pub fn new(c1: Coord, c2: Coord) -> (r: Rect)
        ensures
            r == Rect::spanned(c1, c2),
    {
        let (min_x, max_x) = order(c1.x, c2.x);
        let (min_y, max_y) = order(c1.y, c2.y);
        Rect { min: Coord { x: min_x, y: min_y }, max: Coord { x: max_x, y: max_y } }
    }
}

impl Line {
    /// The rise over the run, which is infinite for a vertical line and no number for a line
    /// without extent.
    pub open spec fn inclination(self) -> Double {
        self.end.y.minus(self.start.y).over(self.end.x.minus(self.start.x))
    }

    /// The smallest rectangle around the line.
    pub open spec fn bounds(self) -> Rect {
        Rect::spanned(self.start, self.end)
    }

    /// The slope of the line.
    pub fn slope(&self) -> (d: Double)
        ensures
            d == self.inclination(),
    {
        self.end.y.sub(self.start.y).div(self.end.x.sub(self.start.x))
    }

    /// The smallest rectangle around the line.
    pub fn bounding_rect(&self) -> (r: Rect)
        ensures
            r == self.bounds(),
    {
        Rect::new(self.start, self.end)
    }
}

/// The lines between consecutive points.
pub open spec fn line_count(points: int) -> int {
    if points > 0 {
        points - 1
    } else {
        0
    }
}

/// The `k`-th line of a chain of points.
pub open spec fn line_at(coords: Seq<Coord>, k: int) -> Line {
    Line { start: coords[k], end: coords[k + 1] }
}

/// The encoding of 90.
pub const QUARTER_TURN: u64 = 0x4056_8000_0000_0000;

/// What holds of the angle of a slope in degrees: it is a number where the slope is one, lies
/// between -90 and 90 on the side of the slope, and is zero for a level line and a quarter-turn
/// for a vertical one.
pub open spec fn is_angle(slope: Double, degrees: Double) -> bool {
    &&& degrees.nan() <==> slope.nan()
    &&& !slope.nan() ==> {
        &&& degrees.absolute().at_most(Double { bits: QUARTER_TURN })
        &&& degrees.negative() == slope.negative()
    }
    &&& slope.zero() ==> degrees.zero()
    &&& slope.infinite() ==> degrees.absolute() == (Double { bits: QUARTER_TURN })
}

fn check_angle(slope: Double, degrees: Double) -> (b: bool)
    ensures
        b == is_angle(slope, degrees),
{
    if slope.is_nan() || degrees.is_nan() {
        return slope.is_nan() && degrees.is_nan();
    }
    let quarter_turn = Double { bits: QUARTER_TURN };
    degrees.abs().le(quarter_turn) && degrees.is_negative() == slope.is_negative() && (
    !slope.is_zero() || degrees.is_zero()) && (!slope.is_infinite() || degrees.abs()
        == quarter_turn)
}

/// A length: a number that is not negative.
pub open spec fn is_length(d: Double) -> bool {
    !d.nan() && d.value() >= 0
}

/// More than zero.
pub open spec fn is_positive(d: Double) -> bool {
    !d.nan() && d.value() > 0
}

/// Every point is finite.
pub open spec fn all_finite(coords: Seq<Coord>) -> bool {
    forall|k: int| 0 <= k < coords.len() ==> (#[trigger] coords[k]).finite()
}

/// Some line has a slope, so that it is longer than a point.
pub open spec fn has_slope(coords: Seq<Coord>) -> bool {
    exists|k: int|
        0 <= k < line_count(coords.len() as int) && !(#[trigger] line_at(
            coords,
            k,
        )).inclination().nan()
}

/// Every line has its angle, and of finite points the length is one, which is positive where a line
/// has a slope.
pub open spec fn is_chain(coords: Seq<Coord>, length: Double, degrees: Seq<Double>) -> bool {
    &&& degrees.len() == line_count(coords.len() as int)
    &&& forall|k: int|
        0 <= k < degrees.len() ==> is_angle(line_at(coords, k).inclination(), #[trigger] degrees[k])
    &&& all_finite(coords) ==> is_length(length)
    &&& all_finite(coords) && has_slope(coords) ==> is_positive(length)
}

/// A chain of lines, with what the plane's measures say of it: its length, and of each of its
/// lines the angle of the slope in degrees.
#[derive(Debug)]
pub struct LineString {
    pub coords: Vec<Coord>,
    pub length: Double,
    pub degrees: Vec<Double>,
}

impl Clone for LineString {
    /// The same line string.
    fn clone(&self) -> (s: LineString)
        ensures
            s.coords@ == self.coords@,
            s.length == self.length,
            s.degrees@ == self.degrees@,
    {
        LineString {
            coords: self.coords.clone(),
            length: self.length,
            degrees: self.degrees.clone(),
        }
    }
}

impl LineString {
    /// The points, the length and the angles belong together.
    pub open spec fn wf(&self) -> bool {
        is_chain(self.coords@, self.length, self.degrees@)
    }

    /// The `k`-th line.
    pub open spec fn line(&self, k: int) -> Line {
        line_at(self.coords@, k)
    }

    /// A line string, where the length and the angles can be those of the points.
    pub fn new(coords: Vec<Coord>, length: Double, degrees: Vec<Double>) -> (r: Option<LineString>)
        ensures
            r is Some <==> is_chain(coords@, length, degrees@),
            r matches Some(s) ==> s.wf() && s.coords == coords && s.length == length && s.degrees
                == degrees,
    {
        let n = coords.len();
        if degrees.len() != (if n > 0 {
            n - 1
        } else {
            0
        }) {
            return None;
        }
        let mut finite: bool = true;
        let mut k: usize = 0;
        while k < n
            invariant
                k <= n == coords@.len(),
                finite <==> forall|j: int| 0 <= j < k ==> (#[trigger] coords@[j]).finite(),
            decreases n - k,
        {
            if !coords[k].is_finite() {
                finite = false;
            }
            k = k + 1;
        }
        let mut sloped: bool = false;
        let mut i: usize = 0;
        while i < degrees.len()
            invariant
                i <= degrees@.len() == line_count(coords@.len() as int),
                forall|j: int|
                    0 <= j < i ==> is_angle(
                        line_at(coords@, j).inclination(),
                        #[trigger] degrees@[j],
                    ),
                sloped <==> exists|j: int|
                    0 <= j < i && !(#[trigger] line_at(coords@, j)).inclination().nan(),
            decreases degrees@.len() - i,
        {
            let line = Line { start: coords[i], end: coords[i + 1] };
            assert(line == line_at(coords@, i as int));
            let slope = line.slope();
            if !check_angle(slope, degrees[i]) {
                return None;
            }
            if !slope.is_nan() {
                sloped = true;
            }
            i = i + 1;
        }
        let zero = Double { bits: 0 };
        if finite && (!zero.le(length) || (sloped && !zero.lt(length))) {
            return None;
        }
        Some(LineString { coords, length, degrees })
    }
}

} // verus!
