//! Sums of an integer function over the cells of a grid, and how they change
//! when the function changes at one cell. Searches use them to bound costs
//! and to show that they terminate.
use vstd::prelude::*;
use crate::point::Point;

verus! {

/// Sum of `f` over the first `n` cells of row `y`.
pub open spec fn row_sum(f: spec_fn(Point) -> int, y: int, n: int) -> int
    decreases n,
{
    if n <= 0 {
        0
    } else {
        row_sum(f, y, n - 1) + f(Point { x: (n - 1) as i32, y: y as i32 })
    }
}

/// Sum of `f` over the `w` by `h` grid.
pub open spec fn grid_sum(f: spec_fn(Point) -> int, w: int, h: int) -> int
    decreases h,
{
    if h <= 0 {
        0
    } else {
        grid_sum(f, w, h - 1) + row_sum(f, h - 1, w)
    }
}

pub open spec fn in_grid(w: int, h: int, p: Point) -> bool {
    0 <= p.x < w && 0 <= p.y < h
}

/// 1 on the keys of `m`, 0 elsewhere.
pub open spec fn indicator<V>(m: Map<Point, V>) -> spec_fn(Point) -> int {
    |p: Point| if m.contains_key(p) { 1int } else { 0int }
}

/// The number of grid cells that are keys of `m`.
pub open spec fn key_count<V>(m: Map<Point, V>, w: int, h: int) -> int {
    grid_sum(indicator(m), w, h)
}

proof fn lemma_row_update(f: spec_fn(Point) -> int, g: spec_fn(Point) -> int, y: int, n: int, k: Point)
    requires
        0 <= y < i32::MAX,
        n < i32::MAX,
        forall|p: Point| p != k ==> #[trigger] f(p) == g(p),
    ensures
        row_sum(g, y, n) == row_sum(f, y, n) + (if k.y == y && 0 <= k.x < n {
            g(k) - f(k)
        } else {
            0
        }),
    decreases n,
{
    if n > 0 {
        lemma_row_update(f, g, y, n - 1, k);
    }
}

/// Changing `f` at the single point `k` changes the grid sum by the change at
/// `k` when `k` is a grid cell, and not at all otherwise.
pub proof fn lemma_grid_update(f: spec_fn(Point) -> int, g: spec_fn(Point) -> int, w: int, h: int, k: Point)
    requires
        w < i32::MAX,
        h < i32::MAX,
        forall|p: Point| p != k ==> #[trigger] f(p) == g(p),
    ensures
        grid_sum(g, w, h) == grid_sum(f, w, h) + (if in_grid(w, h, k) { g(k) - f(k) } else { 0 }),
    decreases h,
{
    if h > 0 {
        lemma_grid_update(f, g, w, h - 1, k);
        lemma_row_update(f, g, h - 1, w, k);
    }
}

proof fn lemma_row_bounds(f: spec_fn(Point) -> int, y: int, n: int, hi: int)
    requires
        forall|p: Point| 0 <= #[trigger] f(p) <= hi,
        n >= 0,
    ensures
        0 <= row_sum(f, y, n) <= n * hi,
    decreases n,
{
    if n > 0 {
        lemma_row_bounds(f, y, n - 1, hi);
        let q = Point { x: (n - 1) as i32, y: y as i32 };
        assert(0 <= f(q) <= hi);
        assert((n - 1) * hi + hi == n * hi) by (nonlinear_arith);
        assert(row_sum(f, y, n) == row_sum(f, y, n - 1) + f(q));
    } else {
        assert(n * hi == 0) by (nonlinear_arith)
            requires
                n == 0,
        ;
    }
}

/// A grid sum of a function between 0 and `hi` lies between 0 and
/// `hi * w * h`.
pub proof fn lemma_grid_bounds(f: spec_fn(Point) -> int, w: int, h: int, hi: int)
    requires
        forall|p: Point| 0 <= #[trigger] f(p) <= hi,
        w >= 0,
        h >= 0,
    ensures
        0 <= grid_sum(f, w, h) <= hi * (w * h),
    decreases h,
{
    if h > 0 {
        lemma_grid_bounds(f, w, h - 1, hi);
        lemma_row_bounds(f, h - 1, w, hi);
        assert(hi * (w * (h - 1)) + w * hi == hi * (w * h)) by (nonlinear_arith);
        assert(grid_sum(f, w, h) == grid_sum(f, w, h - 1) + row_sum(f, h - 1, w));
    } else {
        assert(hi * (w * h) == 0) by (nonlinear_arith)
            requires
                h == 0,
        ;
    }
}

/// Inserting a key into a map changes its key count by one when the key is a
/// new grid cell, and not at all otherwise.
pub proof fn lemma_count_insert<V>(m: Map<Point, V>, k: Point, v: V, w: int, h: int)
    requires
        w < i32::MAX,
        h < i32::MAX,
    ensures
        key_count(m.insert(k, v), w, h) == key_count(m, w, h) + (if in_grid(w, h, k)
            && !m.contains_key(k) {
            1int
        } else {
            0int
        }),
{
    lemma_grid_update(indicator(m), indicator(m.insert(k, v)), w, h, k);
}

/// A map's key count is at most the number of cells.
pub proof fn lemma_count_bound<V>(m: Map<Point, V>, w: int, h: int)
    requires
        w >= 0,
        h >= 0,
    ensures
        0 <= key_count(m, w, h) <= w * h,
{
    lemma_grid_bounds(indicator(m), w, h, 1);
}

} // verus!
