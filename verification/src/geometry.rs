use vstd::prelude::*;

verus! {

/// Largest coordinate magnitude the library accepts. Keeping every
/// coordinate within this range guarantees that a squared Euclidean
/// distance between two points fits in a `u64`.
pub const COORD_LIMIT: i64 = 0x4000_0000;

/// A point on the integer grid.
#[derive(Clone, Copy, Debug, PartialEq, Eq, Structural)]
pub struct Point {
    pub x: i64,
    pub y: i64,
}

/// An RGB color with 8-bit channels.
#[derive(Clone, Copy, Debug, PartialEq, Eq, Structural)]
pub struct Color {
    pub r: u8,
    pub g: u8,
    pub b: u8,
}

/// A colored site: one seed of a Voronoi cell. Its identity is its
/// position in the site sequence it was taken from.
#[derive(Clone, Copy, Debug, PartialEq, Eq, Structural)]
pub struct Site {
    pub point: Point,
    pub color: Color,
}

impl Point {
    pub fn new(x: i64, y: i64) -> (p: Point)
        ensures
            p == (Point { x, y }),
    {
        Point { x, y }
    }
}

impl Color {
    pub fn new(r: u8, g: u8, b: u8) -> (c: Color)
        ensures
            c == (Color { r, g, b }),
    {
        Color { r, g, b }
    }
}

impl Site {
    pub fn new(point: Point, color: Color) -> (s: Site)
        ensures
            s == (Site { point, color }),
    {
        Site { point, color }
    }
}

/// Both coordinates within the supported range.
pub open spec fn in_bounds(p: Point) -> bool {
    &&& -(COORD_LIMIT as int) <= p.x as int <= COORD_LIMIT as int
    &&& -(COORD_LIMIT as int) <= p.y as int <= COORD_LIMIT as int
}

/// The square of an integer.
pub open spec fn sq(d: int) -> int {
    d * d
}

/// Squared Euclidean distance between two points. All comparisons in
/// the library order distances by this quantity; it is monotone in the
/// Euclidean distance, so nearest-by-squared-distance is nearest.
pub open spec fn dist2(p: Point, q: Point) -> int {
    sq(p.x - q.x) + sq(p.y - q.y)
}

pub proof fn lemma_sq_nonneg(d: int)
    ensures
        d * d >= 0,
{
    assert(d * d >= 0) by (nonlinear_arith);
}

/// Squares of integers grow with the magnitude: a bound on `d` bounds `d * d`.
pub proof fn lemma_sq_bound(d: int, m: int)
    requires
        -m <= d <= m,
    ensures
        d * d <= m * m,
{
    assert(d * d <= m * m) by (nonlinear_arith)
        requires
            -m <= d <= m,
    ;
}

/// Squaring is monotone on the nonnegative integers.
pub proof fn lemma_sq_mono(a: int, b: int)
    requires
        0 <= a <= b,
    ensures
        a * a <= b * b,
{
    assert(a * a <= b * b) by (nonlinear_arith)
        requires
            0 <= a <= b,
    ;
}

/// Squaring forgets the sign.
pub proof fn lemma_sq_neg(d: int)
    ensures
        sq(d) == sq(-d),
{
    assert(d * d == (-d) * (-d)) by (nonlinear_arith);
}

/// A squared distance between in-range points fits in 63 bits.
pub proof fn lemma_dist2_bounds(p: Point, q: Point)
    requires
        in_bounds(p),
        in_bounds(q),
    ensures
        0 <= dist2(p, q) <= 0x8000_0000_0000_0000,
{
    lemma_sq_nonneg(p.x - q.x);
    lemma_sq_nonneg(p.y - q.y);
    lemma_sq_bound(p.x - q.x, 0x8000_0000);
    lemma_sq_bound(p.y - q.y, 0x8000_0000);
}

/// Computes the squared Euclidean distance between two in-range points.
pub fn dist2_exec(p: Point, q: Point) -> (d: u64)
    requires
        in_bounds(p),
        in_bounds(q),
    ensures
        d as int == dist2(p, q),
{
    let dx: i64 = p.x - q.x;
    let dy: i64 = p.y - q.y;
    proof {
        lemma_sq_nonneg(dx as int);
        lemma_sq_nonneg(dy as int);
        lemma_sq_bound(dx as int, 0x8000_0000);
        lemma_sq_bound(dy as int, 0x8000_0000);
    }
    let sx: i64 = dx * dx;
    let sy: i64 = dy * dy;
    (sx as u64) + (sy as u64)
}

} // verus!
