//! Points on a grid, the whole-number distances between them, and the cells
//! of a straight line.

use vstd::prelude::*;
use bresenham::Bresenham;

verus! {

/// A cell of a grid, by column and row.
#[derive(Clone, Copy, Debug, PartialEq, Eq, Structural)]
pub struct Point {
    pub x: i32,
    pub y: i32,
}

/// A cell of a grid with levels.
#[derive(Clone, Copy, Debug, PartialEq, Eq, Structural)]
pub struct Point3 {
    pub x: i32,
    pub y: i32,
    pub z: i32,
}

/// The ways of measuring the distance between two points.
#[derive(Clone, Copy, Debug, PartialEq, Eq, Structural)]
pub enum DistanceAlg {
    Pythagoras,
    PythagorasSquared,
    Manhattan,
    Chebyshev,
}

impl Point {
    pub fn new(x: i32, y: i32) -> (p: Point)
        ensures
            p.x == x,
            p.y == y,
    {
        Point { x, y }
    }
}

impl Point3 {
    pub fn new(x: i32, y: i32, z: i32) -> (p: Point3)
        ensures
            p.x == x,
            p.y == y,
            p.z == z,
    {
        Point3 { x, y, z }
    }
}

/// How far two coordinates lie apart.
pub open spec fn gap(a: int, b: int) -> int {
    if a > b {
        a - b
    } else {
        b - a
    }
}

/// The greater of two numbers.
pub open spec fn greater(a: int, b: int) -> int {
    if a > b {
        a
    } else {
        b
    }
}

/// How far two coordinates lie apart.
pub fn axis_gap(a: i32, b: i32) -> (d: u32)
    ensures
        d == gap(a as int, b as int),
{
    if a > b {
        (a as i64 - b as i64) as u32
    } else {
        (b as i64 - a as i64) as u32
    }
}

/// The distance by columns and rows.
pub fn distance2d_manhattan(start: Point, end: Point) -> (d: u64)
    ensures
        d == gap(start.x as int, end.x as int) + gap(start.y as int, end.y as int),
{
    let dx = axis_gap(start.x, end.x) as u64;
    let dy = axis_gap(start.y, end.y) as u64;
    dx + dy
}

/// The distance by columns, rows and levels.
pub fn distance3d_manhattan(start: Point3, end: Point3) -> (d: u64)
    ensures
        d == gap(start.x as int, end.x as int) + gap(start.y as int, end.y as int) + gap(
            start.z as int,
            end.z as int,
        ),
{
    let dx = axis_gap(start.x, end.x) as u64;
    let dy = axis_gap(start.y, end.y) as u64;
    let dz = axis_gap(start.z, end.z) as u64;
    dx + dy + dz
}

/// The distance where a step on the diagonal counts as one.
pub fn distance2d_chebyshev(start: Point, end: Point) -> (d: u64)
    ensures
        d == greater(gap(start.x as int, end.x as int), gap(start.y as int, end.y as int)),
{
    let dx = axis_gap(start.x, end.x) as u64;
    let dy = axis_gap(start.y, end.y) as u64;
    if dx > dy {
        (dx - dy) + dy
    } else {
        (dy - dx) + dx
    }
}

/// The square of the distance as the crow flies.
pub fn distance2d_pythagoras_squared(start: Point, end: Point) -> (d: u128)
    ensures
        d == gap(start.x as int, end.x as int) * gap(start.x as int, end.x as int) + gap(
            start.y as int,
            end.y as int,
        ) * gap(start.y as int, end.y as int),
{
    let dx = axis_gap(start.x, end.x) as u128;
    let dy = axis_gap(start.y, end.y) as u128;
    proof {
        lemma_square_fits(dx as int);
        lemma_square_fits(dy as int);
    }
    (dx * dx) + (dy * dy)
}

/// The square of the distance as the crow flies, with levels.
pub fn distance3d_pythagoras_squared(start: Point3, end: Point3) -> (d: u128)
    ensures
        d == gap(start.x as int, end.x as int) * gap(start.x as int, end.x as int) + gap(
            start.y as int,
            end.y as int,
        ) * gap(start.y as int, end.y as int) + gap(start.z as int, end.z as int) * gap(
            start.z as int,
            end.z as int,
        ),
{
    let dx = axis_gap(start.x, end.x) as u128;
    let dy = axis_gap(start.y, end.y) as u128;
    let dz = axis_gap(start.z, end.z) as u128;
    proof {
        lemma_square_fits(dx as int);
        lemma_square_fits(dy as int);
        lemma_square_fits(dz as int);
    }
    (dx * dx) + (dy * dy) + (dz * dz)
}

proof fn lemma_square_fits(d: int)
    requires
        0 <= d <= 0xffff_ffff,
    ensures
        0 <= d * d <= 0xffff_ffff * 0xffff_ffff,
{
    assert(0 <= d * d <= 0xffff_ffff * 0xffff_ffff) by (nonlinear_arith)
        requires
            0 <= d <= 0xffff_ffff,
    ;
}

/// The points that the `bresenham` crate's line from `start` to `end`
/// yields, in the order in which it yields them.
pub uninterp spec fn bresenham_points(start: (isize, isize), end: (isize, isize)) -> Seq<
    (isize, isize),
>;

/// Runs `Bresenham::new(start, end)` to its end and collects the points.
/// The crate's arithmetic is on `isize`; with coordinates that an `i32`
/// holds it stays within an `isize` of 64 bits.
#[verifier::external_body]
fn bresenham_line(start: (isize, isize), end: (isize, isize)) -> (points: Vec<(isize, isize)>)
    requires
        i32::MIN <= start.0 <= i32::MAX,
        i32::MIN <= start.1 <= i32::MAX,
        i32::MIN <= end.0 <= i32::MAX,
        i32::MIN <= end.1 <= i32::MAX,
    ensures
        points@ == bresenham_points(start, end),
{
    Bresenham::new(start, end).collect()
}

/// A pair of coordinates as a point; a coordinate that an `i32` cannot hold
/// is cut to its low 32 bits.
pub open spec fn as_point(pair: (isize, isize)) -> Point {
    Point { x: pair.0 as i32, y: pair.1 as i32 }
}

/// Each pair as a point.
pub open spec fn as_points(pairs: Seq<(isize, isize)>) -> Seq<Point> {
    Seq::new(pairs.len(), |i: int| as_point(pairs[i]))
}

/// Each pair of coordinates as a point.
pub fn to_points(pairs: &Vec<(isize, isize)>) -> (points: Vec<Point>)
    ensures
        points@ == as_points(pairs@),
{
    let mut result: Vec<Point> = Vec::new();
    let mut i: usize = 0;
    while i < pairs.len()
        invariant
            i <= pairs.len(),
            result@.len() == i,
            forall|k: int| 0 <= k < i ==> result@[k] == as_point(pairs@[k]),
        decreases pairs.len() - i,
    {
        let p = pairs[i];
        result.push(Point::new(#[verifier::truncate] (p.0 as i32), #[verifier::truncate] (p.1 as i32)));
        i += 1;
    }
    proof {
        assert(result@ =~= as_points(pairs@));
    }
    result
}

/// The cells of a straight line from `start` towards `end`, as the
/// `bresenham` crate plots it.
pub fn line2d(start: Point, end: Point) -> (line: Vec<Point>)
    ensures
        line@ == as_points(
            bresenham_points(
                (start.x as isize, start.y as isize),
                (end.x as isize, end.y as isize),
            ),
        ),
{
    let raw = bresenham_line(
        (start.x as isize, start.y as isize),
        (end.x as isize, end.y as isize),
    );
    to_points(&raw)
}

} // verus!
