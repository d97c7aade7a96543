//! Integer grid points and the distance functions used on them.
use vstd::prelude::*;

verus! {

/// An integer point on a 2d grid.
#[derive(Clone, Copy, Debug, PartialEq, Eq, Hash, Structural)]
pub struct Point {
    pub x: i32,
    pub y: i32,
}

pub open spec fn abs_int(v: int) -> int {
    if v < 0 { -v } else { v }
}

pub open spec fn min_int(a: int, b: int) -> int {
    if a < b { a } else { b }
}

pub open spec fn dx(a: Point, b: Point) -> int {
    abs_int(a.x - b.x)
}

pub open spec fn dy(a: Point, b: Point) -> int {
    abs_int(a.y - b.y)
}

/// Taxicab distance between two points.
pub open spec fn taxi(a: Point, b: Point) -> int {
    dx(a, b) + dy(a, b)
}

/// Octile distance: straight steps cost `c`, diagonal steps cost `d`.
pub open spec fn octile(a: Point, b: Point, c: int, d: int) -> int {
    c * abs_int(dx(a, b) - dy(a, b)) + d * min_int(dx(a, b), dy(a, b))
}

pub open spec fn fits_i32(v: int) -> bool {
    i32::MIN <= v <= i32::MAX
}

/// The intermediate values of the octile formula all fit in an `i32`.
pub open spec fn octile_fits(a: Point, b: Point, c: int, d: int) -> bool {
    &&& fits_i32(a.x - b.x)
    &&& fits_i32(a.y - b.y)
    &&& fits_i32(dx(a, b) - dy(a, b))
    &&& fits_i32(dx(a, b) + dy(a, b))
    &&& fits_i32(2 * c)
    &&& fits_i32(2 * c - d)
    &&& fits_i32((2 * c - d) * abs_int(dx(a, b) - dy(a, b)))
    &&& fits_i32(d * (dx(a, b) + dy(a, b)))
    &&& fits_i32((2 * c - d) * abs_int(dx(a, b) - dy(a, b)) + d * (dx(a, b) + dy(a, b)))
}

impl Point {
    pub open spec fn spec_from(a: [i32; 2]) -> Point {
        Point { x: a[0], y: a[1] }
    }

    pub fn new(x: i32, y: i32) -> (r: Point)
        ensures
            r.x == x,
            r.y == y,
    {
        Point { x, y }
    }

    pub fn from_array(a: [i32; 2]) -> (r: Point)
        ensures
            r == Point::spec_from(a),
    {
        Point { x: a[0], y: a[1] }
    }

    pub fn to_array(&self) -> (r: [i32; 2])
        ensures
            r[0] == self.x,
            r[1] == self.y,
            r@.len() == 2,
    {
        [self.x, self.y]
    }
}

/// Whether the step from `a` to `b` keeps one coordinate (is not diagonal).
pub fn is_cardinal(a: Point, b: Point) -> (r: bool)
    ensures
        r == (a.x == b.x || a.y == b.y),
{
    a.x == b.x || a.y == b.y
}

/// Taxicab distance, the heuristic for a 4-way grid.
pub fn cardinal_heuristic(a: Point, b: Point) -> (r: i32)
    requires
        taxi(a, b) <= i32::MAX,
    ensures
        r == taxi(a, b),
{
    let ddx: i64 = if a.x >= b.x { a.x as i64 - b.x as i64 } else { b.x as i64 - a.x as i64 };
    let ddy: i64 = if a.y >= b.y { a.y as i64 - b.y as i64 } else { b.y as i64 - a.y as i64 };
    (ddx + ddy) as i32
}

/// The octile heuristic for an 8-way grid where a straight step costs
/// `cardinal_cost` and a diagonal step costs `diagonal_cost`.
pub fn octile_heuristic(a: Point, b: Point, cardinal_cost: i32, diagonal_cost: i32) -> (r: i32)
    requires
        octile_fits(a, b, cardinal_cost as int, diagonal_cost as int),
    ensures
        r == octile(a, b, cardinal_cost as int, diagonal_cost as int),
{
    let tcmd = 2 * cardinal_cost - diagonal_cost;
    let sx = a.x - b.x;
    let sy = a.y - b.y;
    let ddx: i32 = if sx < 0 { -sx } else { sx };
    let ddy: i32 = if sy < 0 { -sy } else { sy };
    let diff = ddx - ddy;
    let adiff: i32 = if diff < 0 { -diff } else { diff };
    let num = tcmd * adiff + diagonal_cost * (ddx + ddy);
    proof {
        let c = cardinal_cost as int;
        let d = diagonal_cost as int;
        let ex = ddx as int;
        let ey = ddy as int;
        let m = min_int(ex, ey);
        let e = abs_int(ex - ey);
        assert(ex + ey == e + 2 * m);
        assert((2 * c - d) * e + d * (e + 2 * m) == 2 * (c * e + d * m)) by (nonlinear_arith);
    }
    num / 2
}

} // verus!
