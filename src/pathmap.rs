//! The obstacle grid that searches run on: adjacency, exits, move costs and
//! distance heuristics.
use vstd::prelude::*;
use arrayvec::ArrayVec;
use sark_grids::BitGrid;
use crate::bindings::{bit_grid_new, exits_new, exits_push, exit_items, grid_bits};
use crate::text::{rows_of_len, cell_char, max_len, rows_view, split_rows, text_rows};
use crate::point::{
    fits_i32,
    cardinal_heuristic, is_cardinal, octile, octile_fits, octile_heuristic, taxi, Point, abs_int,
    dx, dy, min_int,
};

verus! {

pub const DEFAULT_MAX_EXITS: usize = 8;

pub const DEFAULT_CARDINAL_COST: i32 = 2;

pub const DEFAULT_DIAGONAL_COST: i32 = 3;

/// How the grid handles movement between adjacent tiles.
#[derive(Clone, Copy, Debug, PartialEq, Eq, Structural)]
pub enum Adjacency {
    /// 4-way movement, every step costs 1.
    Cardinal,
    /// 8-way movement with separate straight and diagonal step costs.
    Octile { cardinal_cost: i32, diagonal_cost: i32 },
}

pub open spec fn default_adjacency() -> Adjacency {
    Adjacency::Octile { cardinal_cost: DEFAULT_CARDINAL_COST, diagonal_cost: DEFAULT_DIAGONAL_COST }
}

impl Default for Adjacency {
    fn default() -> (r: Self)
        ensures
            r == default_adjacency(),
    {
        Adjacency::Octile { cardinal_cost: DEFAULT_CARDINAL_COST, diagonal_cost: DEFAULT_DIAGONAL_COST }
    }
}

/// The offsets to the neighbours of a cell: up, down, left, right, then
/// up-left, up-right, down-left, down-right.
pub open spec fn offsets() -> Seq<(int, int)> {
    seq![(0, 1), (0, -1), (-1, 0), (1, 0), (-1, 1), (1, 1), (-1, -1), (1, -1)]
}

pub open spec fn neighbour_count(adj: Adjacency) -> int {
    match adj {
        Adjacency::Cardinal => 4,
        Adjacency::Octile { .. } => 8,
    }
}

pub open spec fn offset_point(p: Point, o: (int, int)) -> Point {
    Point { x: (p.x + o.0) as i32, y: (p.y + o.1) as i32 }
}

/// The cells next to `p` that the adjacency allows moving to, in order.
pub open spec fn neighbours(adj: Adjacency, p: Point) -> Seq<Point> {
    offsets().take(neighbour_count(adj)).map_values(|o: (int, int)| offset_point(p, o))
}

/// `p` is far enough from the `i32` limits to have neighbours.
pub open spec fn interior(p: Point) -> bool {
    i32::MIN < p.x < i32::MAX && i32::MIN < p.y < i32::MAX
}

/// The cost of a step from `a` to `b`.
pub open spec fn step_cost(adj: Adjacency, a: Point, b: Point) -> int {
    match adj {
        Adjacency::Cardinal => 1,
        Adjacency::Octile { cardinal_cost, diagonal_cost } => if a.x == b.x || a.y == b.y {
            cardinal_cost as int
        } else {
            diagonal_cost as int
        },
    }
}

/// The summed step costs along a walk.
pub open spec fn walk_cost(adj: Adjacency, p: Seq<Point>) -> int
    decreases p.len(),
{
    if p.len() < 2 {
        0
    } else {
        walk_cost(adj, p.drop_last()) + step_cost(adj, p[p.len() - 2], p[p.len() - 1])
    }
}

/// The heuristic distance between `a` and `b`.
pub open spec fn heuristic(adj: Adjacency, a: Point, b: Point) -> int {
    match adj {
        Adjacency::Cardinal => taxi(a, b),
        Adjacency::Octile { cardinal_cost, diagonal_cost } => octile(
            a,
            b,
            cardinal_cost as int,
            diagonal_cost as int,
        ),
    }
}

pub open spec fn heuristic_fits(adj: Adjacency, a: Point, b: Point) -> bool {
    match adj {
        Adjacency::Cardinal => taxi(a, b) <= i32::MAX,
        Adjacency::Octile { cardinal_cost, diagonal_cost } => octile_fits(
            a,
            b,
            cardinal_cost as int,
            diagonal_cost as int,
        ),
    }
}

/// The largest single step cost.
pub open spec fn max_step(adj: Adjacency) -> int {
    match adj {
        Adjacency::Cardinal => 1,
        Adjacency::Octile { cardinal_cost, diagonal_cost } => if cardinal_cost >= diagonal_cost {
            cardinal_cost as int
        } else {
            diagonal_cost as int
        },
    }
}

/// No step has a negative cost.
pub open spec fn steps_nonneg(adj: Adjacency) -> bool {
    match adj {
        Adjacency::Cardinal => true,
        Adjacency::Octile { cardinal_cost, diagonal_cost } => cardinal_cost >= 0 && diagonal_cost >= 0,
    }
}

pub open spec fn steps_positive(adj: Adjacency) -> bool {
    match adj {
        Adjacency::Cardinal => true,
        Adjacency::Octile { cardinal_cost, diagonal_cost } => cardinal_cost >= 1 && diagonal_cost
            >= 1,
    }
}

/// The map's costs are positive and small enough that no search on it
/// overflows an `i32`.
pub open spec fn search_fits(m: PathMap2d) -> bool {
    &&& steps_positive(m.adj())
    &&& max_step(m.adj()) * (m.spec_width() * m.spec_height() + 3 * (m.spec_width()
        + m.spec_height()) + 1) <= i32::MAX
}

/// Between two cells of a map that `search_fits`, the heuristic can be
/// computed and is between 0 and `max_step * (width + height)`.
pub proof fn lemma_heuristic_bounds(m: PathMap2d, a: Point, b: Point)
    requires
        m.wf(),
        search_fits(m),
        m.in_bounds(a),
        m.in_bounds(b),
    ensures
        heuristic_fits(m.adj(), a, b),
        0 <= heuristic(m.adj(), a, b) <= max_step(m.adj()) * (m.spec_width() + m.spec_height()),
{
    let w = m.spec_width();
    let h = m.spec_height();
    let big = w * h + 3 * (w + h) + 1;
    let mm = max_step(m.adj());
    assert(w * h >= 0) by (nonlinear_arith)
        requires
            w >= 0,
            h >= 0,
    ;
    assert(mm * big >= mm * (w + h)) by (nonlinear_arith)
        requires
            big >= w + h,
            mm >= 1,
    ;
    assert(mm * big >= mm * 3 * (w + h)) by (nonlinear_arith)
        requires
            big >= 3 * (w + h),
            mm >= 1,
    ;
    let ex = dx(a, b);
    let ey = dy(a, b);
    assert(0 <= ex < w && 0 <= ey < h);
    match m.adj() {
        Adjacency::Cardinal => {
            assert(taxi(a, b) <= i32::MAX);
        },
        Adjacency::Octile { cardinal_cost, diagonal_cost } => {
            let c = cardinal_cost as int;
            let d = diagonal_cost as int;
            let e = abs_int(ex - ey);
            let s = w + h;
            assert(0 <= e < s);
            assert(1 <= c <= mm && 1 <= d <= mm);
            assert(-(mm * s) <= (2 * c - d) * e <= 2 * (mm * s)) by (nonlinear_arith)
                requires
                    1 <= c <= mm,
                    1 <= d <= mm,
                    0 <= e < s,
            ;
            assert(0 <= d * (ex + ey) <= mm * s) by (nonlinear_arith)
                requires
                    1 <= d <= mm,
                    0 <= ex + ey < s,
            ;
            assert(mm * 3 * s == 3 * (mm * s)) by (nonlinear_arith);
            assert(2 * mm * s == 2 * (mm * s)) by (nonlinear_arith);
            assert(0 <= c * e + d * min_int(ex, ey) <= mm * s) by (nonlinear_arith)
                requires
                    1 <= c <= mm,
                    1 <= d <= mm,
                    0 <= e,
                    0 <= min_int(ex, ey),
                    e + min_int(ex, ey) < s,
            ;
            assert(mm * s >= s) by (nonlinear_arith)
                requires
                    mm >= 1,
                    s >= 0,
            ;
            assert(mm * big >= 2 * mm) by (nonlinear_arith)
                requires
                    mm >= 1,
                    big >= 2,
            ;
            assert(fits_i32(a.x - b.x));
            assert(fits_i32(a.y - b.y));
            assert(fits_i32(ex - ey));
            assert(fits_i32(ex + ey));
            assert(fits_i32(2 * c));
            assert(fits_i32(2 * c - d));
            assert(fits_i32((2 * c - d) * e));
            assert(fits_i32(d * (ex + ey)));
            assert(fits_i32((2 * c - d) * e + d * (ex + ey)));
        },
    }
}

pub open spec fn cell_index(width: int, p: Point) -> int {
    p.y * width + p.x
}

pub(crate) proof fn lemma_index_in_range(w: int, h: int, p: Point)
    requires
        0 <= p.x < w,
        0 <= p.y < h,
    ensures
        0 <= cell_index(w, p) < w * h,
{
    assert(0 <= p.y * w) by (nonlinear_arith)
        requires
            0 <= p.y,
            0 <= w,
    ;
    assert(p.y * w + p.x < w * h) by (nonlinear_arith)
        requires
            0 <= p.x < w,
            0 <= p.y < h,
    ;
}

/// Distinct cells of a grid have distinct indices.
pub(crate) proof fn lemma_index_injective(w: int, h: int, a: Point, b: Point)
    requires
        0 <= a.x < w,
        0 <= a.y < h,
        0 <= b.x < w,
        0 <= b.y < h,
        a != b,
    ensures
        cell_index(w, a) != cell_index(w, b),
{
    if a.y == b.y {
        assert(a.x != b.x);
    } else if a.y < b.y {
        assert(a.y * w + w <= b.y * w) by (nonlinear_arith)
            requires
                a.y < b.y,
                w >= 0,
        ;
    } else {
        assert(b.y * w + w <= a.y * w) by (nonlinear_arith)
            requires
                b.y < a.y,
                w >= 0,
        ;
    }
}

/// The offset that undoes offset `i`.
pub open spec fn opposite(i: int) -> int {
    if i == 0 { 1 } else if i == 1 { 0 } else if i == 2 { 3 } else if i == 3 { 2 } else if i == 4 {
        7
    } else if i == 5 { 6 } else if i == 6 { 5 } else { 4 }
}

/// Being a neighbour is symmetric for cells away from the `i32` limits.
pub proof fn lemma_neighbours_symmetric(adj: Adjacency, a: Point, b: Point)
    requires
        neighbours(adj, a).contains(b),
        0 <= a.x < i32::MAX,
        0 <= a.y < i32::MAX,
    ensures
        neighbours(adj, b).contains(a),
{
    let n = neighbour_count(adj);
    let i = choose|i: int| 0 <= i < neighbours(adj, a).len() && #[trigger] neighbours(adj, a)[i] == b;
    let o = offsets();
    assert(o[0] == (0int, 1int) && o[1] == (0int, -1int) && o[2] == (-1int, 0int) && o[3] == (1int, 0int));
    assert(o[4] == (-1int, 1int) && o[5] == (1int, 1int) && o[6] == (-1int, -1int) && o[7] == (1int, -1int));
    assert(b == offset_point(a, o[i]));
    let j = opposite(i);
    assert(0 <= j < n);
    assert(neighbours(adj, b)[j] == offset_point(b, o[j]));
    assert(offset_point(b, o[j]) == a);
}

/// A text with these rows makes a non-empty rectangular grid (every row as
/// long as the longest) within the map's limits.
pub open spec fn text_grid_fits(rows: Seq<Seq<char>>) -> bool {
    &&& rows.len() > 0
    &&& forall|k: int| 0 <= k < rows.len() ==> #[trigger] rows[k].len() == max_len(rows)
    &&& max_len(rows) < i32::MAX
    &&& rows.len() < i32::MAX
    &&& max_len(rows) * rows.len() <= usize::MAX
}

/// A rectangular map of obstacles with an adjacency rule. The default
/// adjacency is 8-way.
pub struct PathMap2d {
    pub adjacency: Adjacency,
    obstacles: BitGrid,
    width: u32,
    height: u32,
}

impl PathMap2d {
    /// The adjacency rule.
    pub closed spec fn adj(&self) -> Adjacency {
        self.adjacency
    }

    pub closed spec fn spec_width(&self) -> int {
        self.width as int
    }

    pub closed spec fn spec_height(&self) -> int {
        self.height as int
    }

    /// The obstacle bits, row by row from `y == 0`.
    pub closed spec fn bits(&self) -> Seq<bool> {
        grid_bits(self.obstacles)
    }

    pub open spec fn wf(&self) -> bool {
        &&& self.bits().len() == self.spec_width() * self.spec_height()
        &&& self.spec_width() * self.spec_height() <= usize::MAX
        &&& 0 <= self.spec_width() < i32::MAX
        &&& 0 <= self.spec_height() < i32::MAX
    }

    pub open spec fn in_bounds(&self, p: Point) -> bool {
        0 <= p.x < self.spec_width() && 0 <= p.y < self.spec_height()
    }

    /// Whether the in-bounds cell `p` holds an obstacle.
    pub open spec fn blocked(&self, p: Point) -> bool {
        self.bits()[cell_index(self.spec_width(), p)]
    }

    pub open spec fn passable(&self, p: Point) -> bool {
        self.in_bounds(p) && !self.blocked(p)
    }

    /// `b` is an exit of `a`: a neighbour under the adjacency, in bounds and
    /// free of obstacles.
    pub open spec fn is_exit(&self, a: Point, b: Point) -> bool {
        neighbours(self.adj(), a).contains(b) && self.passable(b)
    }

    /// The exits of `p`, in neighbour order.
    pub open spec fn spec_exits(&self, p: Point) -> Seq<Point> {
        neighbours(self.adj(), p).filter(|q: Point| self.passable(q))
    }

    /// A map of the given size with no obstacles and the default adjacency.
    pub fn new(size: [u32; 2]) -> (r: PathMap2d)
        requires
            size[0] as int * size[1] as int <= usize::MAX,
            size[0] < i32::MAX,
            size[1] < i32::MAX,
        ensures
            r.wf(),
            r.spec_width() == size[0],
            r.spec_height() == size[1],
            r.adj() == default_adjacency(),
            forall|p: Point| r.in_bounds(p) ==> !#[trigger] r.blocked(p),
    {
        let obstacles = bit_grid_new(size[0], size[1]);
        let r = PathMap2d {
            adjacency: Adjacency::default(),
            obstacles,
            width: size[0],
            height: size[1],
        };
        proof {
            assert forall|p: Point| r.in_bounds(p) implies !#[trigger] r.blocked(p) by {
                lemma_index_in_range(r.spec_width(), r.spec_height(), p);
            }
        }
        r
    }

    pub fn width(&self) -> (r: u32)
        ensures
            r == self.spec_width(),
    {
        self.width
    }

    pub fn height(&self) -> (r: u32)
        ensures
            r == self.spec_height(),
    {
        self.height
    }

    /// Use `adjacency` for movement on this map.
    pub fn set_adjacency(&mut self, adjacency: Adjacency)
        requires
            old(self).wf(),
        ensures
            final(self).wf(),
            final(self).adj() == adjacency,
            final(self).spec_width() == old(self).spec_width(),
            final(self).spec_height() == old(self).spec_height(),
            final(self).bits() == old(self).bits(),
    {
        self.adjacency = adjacency;
    }

    /// This map with `adjacency` for movement.
    pub fn with_adjacency(self, adjacency: Adjacency) -> (r: PathMap2d)
        requires
            self.wf(),
        ensures
            r.wf(),
            r.adj() == adjacency,
            r.spec_width() == self.spec_width(),
            r.spec_height() == self.spec_height(),
            r.bits() == self.bits(),
    {
        let mut m = self;
        m.set_adjacency(adjacency);
        m
    }

    /// The grid's size as `[width, height]`.
    pub fn size(&self) -> (r: [u32; 2])
        ensures
            r[0] == self.spec_width(),
            r[1] == self.spec_height(),
    {
        [self.width, self.height]
    }

    /// Whether `p` lies inside the grid.
    pub fn in_bounds_point(&self, p: Point) -> (r: bool)
        requires
            self.wf(),
        ensures
            r == self.in_bounds(p),
    {
        p.x >= 0 && p.y >= 0 && (p.x as i64) < self.width as i64 && (p.y as i64) < self.height as i64
    }

    fn index(&self, p: Point) -> (r: usize)
        requires
            self.wf(),
            self.in_bounds(p),
        ensures
            r == cell_index(self.spec_width(), p),
            r < self.bits().len(),
    {
        proof {
            lemma_index_in_range(self.spec_width(), self.spec_height(), p);
        }
        p.y as usize * self.width as usize + p.x as usize
    }

    /// Whether the in-bounds cell `p` holds an obstacle.
    pub fn is_obstacle(&self, p: [i32; 2]) -> (r: bool)
        requires
            self.wf(),
            self.in_bounds(Point::spec_from(p)),
        ensures
            r == self.blocked(Point::spec_from(p)),
    {
        self.obstacle_at(Point::from_array(p))
    }

    pub fn obstacle_at(&self, p: Point) -> (r: bool)
        requires
            self.wf(),
            self.in_bounds(p),
        ensures
            r == self.blocked(p),
    {
        let i = self.index(p);
        self.obstacles.get_index(i)
    }

    /// Set whether the in-bounds cell `p` holds an obstacle.
    pub fn set_obstacle(&mut self, p: [i32; 2], v: bool)
        requires
            old(self).wf(),
            old(self).in_bounds(Point::spec_from(p)),
        ensures
            final(self).wf(),
            final(self).same_shape(*old(self)),
            final(self).bits() == old(self).bits().update(
                cell_index(old(self).spec_width(), Point::spec_from(p)),
                v,
            ),
    {
        self.set_point(Point::from_array(p), v);
    }

    fn set_point(&mut self, p: Point, v: bool)
        requires
            old(self).wf(),
            old(self).in_bounds(p),
        ensures
            final(self).wf(),
            final(self).same_shape(*old(self)),
            final(self).bits() == old(self).bits().update(cell_index(old(self).spec_width(), p), v),
    {
        let i = self.index(p);
        self.obstacles.set_index(i, v);
    }

    /// Same size and adjacency.
    pub open spec fn same_shape(&self, other: PathMap2d) -> bool {
        &&& self.spec_width() == other.spec_width()
        &&& self.spec_height() == other.spec_height()
        &&& self.adj() == other.adj()
    }

    pub fn add_obstacle(&mut self, p: [i32; 2])
        requires
            old(self).wf(),
            old(self).in_bounds(Point::spec_from(p)),
        ensures
            final(self).wf(),
            final(self).same_shape(*old(self)),
            final(self).bits() == old(self).bits().update(
                cell_index(old(self).spec_width(), Point::spec_from(p)),
                true,
            ),
    {
        self.set_point(Point::from_array(p), true);
    }

    pub fn remove_obstacle(&mut self, p: [i32; 2])
        requires
            old(self).wf(),
            old(self).in_bounds(Point::spec_from(p)),
        ensures
            final(self).wf(),
            final(self).same_shape(*old(self)),
            final(self).bits() == old(self).bits().update(
                cell_index(old(self).spec_width(), Point::spec_from(p)),
                false,
            ),
    {
        self.set_point(Point::from_array(p), false);
    }

    pub fn toggle_obstacle(&mut self, p: [i32; 2])
        requires
            old(self).wf(),
            old(self).in_bounds(Point::spec_from(p)),
        ensures
            final(self).wf(),
            final(self).same_shape(*old(self)),
            final(self).bits() == old(self).bits().update(
                cell_index(old(self).spec_width(), Point::spec_from(p)),
                !old(self).blocked(Point::spec_from(p)),
            ),
    {
        let i = self.index(Point::from_array(p));
        self.obstacles.toggle_index(i);
    }

    /// Clear the obstacle at `old_pos` and set one at `new_pos`, whatever
    /// either held before.
    pub fn move_obstacle(&mut self, old_pos: [i32; 2], new_pos: [i32; 2])
        requires
            old(self).wf(),
            old(self).in_bounds(Point::spec_from(old_pos)),
            old(self).in_bounds(Point::spec_from(new_pos)),
        ensures
            final(self).wf(),
            final(self).same_shape(*old(self)),
            final(self).bits() == old(self).bits().update(
                cell_index(old(self).spec_width(), Point::spec_from(old_pos)),
                false,
            ).update(cell_index(old(self).spec_width(), Point::spec_from(new_pos)), true),
    {
        self.set_point(Point::from_array(old_pos), false);
        self.set_point(Point::from_array(new_pos), true);
    }

    /// The underlying grid of obstacle bits.
    pub fn obstacle_grid(&self) -> (r: &BitGrid)
        ensures
            grid_bits(*r) == self.bits(),
    {
        &self.obstacles
    }

    /// The exits of `p`: its neighbours under the adjacency that are in
    /// bounds and free, in neighbour order.
    pub fn exits(&self, p: [i32; 2]) -> (r: ArrayVec<Point, 8>)
        requires
            self.wf(),
            interior(Point::spec_from(p)),
        ensures
            exit_items(r) == self.spec_exits(Point::spec_from(p)),
            forall|q: Point| #[trigger] exit_items(r).contains(q) <==> self.is_exit(Point::spec_from(p), q),
    {
        self.exits_of(Point::from_array(p))
    }

    pub fn exits_of(&self, p: Point) -> (r: ArrayVec<Point, 8>)
        requires
            self.wf(),
            interior(p),
        ensures
            exit_items(r) == self.spec_exits(p),
            forall|q: Point| #[trigger] exit_items(r).contains(q) <==> self.is_exit(p, q),
            forall|q: Point| #[trigger] exit_items(r).contains(q) ==> q != p,
    {
        let n: usize = match self.adjacency {
            Adjacency::Cardinal => 4,
            Adjacency::Octile { .. } => 8,
        };
        let ghost nb = neighbours(self.adj(), p);
        let ghost pred = |q: Point| self.passable(q);
        let mut points = exits_new();
        let mut i: usize = 0;
        while i < n
            invariant
                self.wf(),
                interior(p),
                n == neighbour_count(self.adj()),
                nb == neighbours(self.adj(), p),
                nb.len() == n,
                pred == (|q: Point| self.passable(q)),
                0 <= i <= n,
                exit_items(points) == nb.take(i as int).filter(pred),
                forall|q: Point| #[trigger] exit_items(points).contains(q) <==> (
                    nb.take(i as int).contains(q) && self.passable(q)),
                forall|q: Point| #[trigger] exit_items(points).contains(q) ==> q != p,
            decreases n - i,
        {
            let (ox, oy) = offset(i);
            let q = Point { x: p.x + ox, y: p.y + oy };
            assert(q == nb[i as int]);
            proof {
                assert(nb.take(i as int + 1) =~= nb.take(i as int).push(q));
                nb.take(i as int).lemma_filter_push(q, pred);
                nb.take(i as int).lemma_filter_len(pred);
            }
            let ghost before = exit_items(points);
            assert(pred(q) == self.passable(q));
            if self.in_bounds_point(q) && !self.obstacle_at(q) {
                exits_push(&mut points, q);
                proof {
                    assert forall|x: Point| #[trigger] exit_items(points).contains(x) <==> (
                        nb.take(i as int + 1).contains(x) && self.passable(x)) by {
                        assert(exit_items(points) == before.push(q));
                        if x == q {
                            assert(exit_items(points)[before.len() as int] == q);
                            assert(nb.take(i as int + 1)[i as int] == q);
                        }
                        if nb.take(i as int + 1).contains(x) && x != q {
                            let j = choose|j: int| 0 <= j < i + 1 && #[trigger] nb.take(i as int + 1)[j] == x;
                            assert(nb.take(i as int)[j] == x);
                        }
                        if before.contains(x) {
                            let j = choose|j: int| 0 <= j < before.len() && #[trigger] before[j] == x;
                            assert(exit_items(points)[j] == x);
                        }
                        if exit_items(points).contains(x) && x != q {
                            let j = choose|j: int| 0 <= j < exit_items(points).len() && #[trigger] exit_items(points)[j] == x;
                            assert(before[j] == x);
                        }
                        if exit_items(points).contains(x) {
                            assert(x != p);
                        }
                    }
                }
            } else {
                proof {
                    assert forall|x: Point| #[trigger] exit_items(points).contains(x) <==> (
                        nb.take(i as int + 1).contains(x) && self.passable(x)) by {
                        if nb.take(i as int + 1).contains(x) && x != q {
                            let j = choose|j: int| 0 <= j < i + 1 && #[trigger] nb.take(i as int + 1)[j] == x;
                            assert(nb.take(i as int)[j] == x);
                        }
                        if nb.take(i as int).contains(x) {
                            let j = choose|j: int| 0 <= j < i && #[trigger] nb.take(i as int)[j] == x;
                            assert(nb.take(i as int + 1)[j] == x);
                        }
                    }
                }
            }
            i += 1;
        }
        proof {
            assert(nb.take(n as int) =~= nb);
        }
        points
    }

    /// Read a map from text: one row per non-empty line, the last line
    /// being `y == 0`, `obstacle_char` marking obstacles. The width is that
    /// of the lines. `None` when the text has no non-empty line, when its
    /// lines differ in length, or when it makes a grid too large for the
    /// map.
    pub fn from_string(s: &str, obstacle_char: char) -> (r: Option<PathMap2d>)
        ensures
            r is Some <==> text_grid_fits(text_rows(s@)),
            r is Some ==> r->0.wf() && r->0.spec_width() == max_len(text_rows(s@))
                && r->0.spec_height() == text_rows(s@).len() && r->0.adj() == default_adjacency(),
            r is Some ==> forall|p: Point| #[trigger] r->0.in_bounds(p) ==> (r->0.blocked(p) <==> cell_char(
                text_rows(s@),
                p.x as int,
                p.y as int,
            ) == Some(obstacle_char)),
    {
        let (rows, width) = split_rows(s);
        let ghost rv = text_rows(s@);
        let height = rows.len();
        if height == 0 || width >= i32::MAX as usize || height >= i32::MAX as usize {
            return None;
        }
        if !rows_of_len(&rows, width) {
            return None;
        }
        proof {
            assert(width as int * height as int <= 0x4000_0000_0000_0000) by (nonlinear_arith)
                requires
                    0 <= width < 0x8000_0000,
                    0 <= height < 0x8000_0000,
            ;
        }
        if width as u64 * height as u64 > usize::MAX as u64 {
            return None;
        }
        proof {
            crate::text::lemma_max_len(rv);
        }
        let mut map = PathMap2d::new([width as u32, height as u32]);
        let mut k: usize = 0;
        while k < height
            invariant
                map.wf(),
                map.spec_width() == width,
                map.spec_height() == height,
                map.adj() == default_adjacency(),
                height == rows@.len(),
                rv == rows_view(rows@),
                forall|j: int| 0 <= j < rv.len() ==> #[trigger] rv[j].len() <= width,
                k <= height,
                forall|p: Point| #[trigger] map.in_bounds(p) ==> (map.blocked(p) <==> (p.y > height - 1 - k
                    && cell_char(rv, p.x as int, p.y as int) == Some(obstacle_char))),
            decreases height - k,
        {
            let y = height - 1 - k;
            let row = &rows[k];
            let len = row.len();
            proof {
                assert(rv[k as int] == rows@[k as int]@);
            }
            let mut x: usize = 0;
            while x < len
                invariant
                    map.wf(),
                    map.spec_width() == width,
                    map.spec_height() == height,
                    map.adj() == default_adjacency(),
                    height == rows@.len(),
                    rv == rows_view(rows@),
                    forall|j: int| 0 <= j < rv.len() ==> #[trigger] rv[j].len() <= width,
                    k < height,
                    y == height - 1 - k,
                    row@ == rv[k as int],
                    len == row@.len(),
                    x <= len,
                    forall|p: Point| #[trigger] map.in_bounds(p) ==> (map.blocked(p) <==> ((p.y > y || (p.y == y
                        && p.x < x)) && cell_char(rv, p.x as int, p.y as int) == Some(obstacle_char))),
                decreases len - x,
            {
                let p = Point { x: x as i32, y: y as i32 };
                let ghost before = map;
                if row[x] == obstacle_char {
                    map.set_point(p, true);
                }
                proof {
                    assert forall|q: Point| #[trigger] map.in_bounds(q) implies (map.blocked(q) <==> ((q.y > y || (q.y
                        == y && q.x < x + 1)) && cell_char(rv, q.x as int, q.y as int) == Some(obstacle_char))) by {
                        assert(before.in_bounds(q));
                        lemma_index_in_range(width as int, height as int, q);
                        lemma_index_in_range(width as int, height as int, p);
                        if q != p {
                            lemma_index_injective(width as int, height as int, q, p);
                        }
                        assert(cell_char(rv, p.x as int, p.y as int) == Some(row@[x as int]));
                    }
                }
                x += 1;
            }
            proof {
                assert forall|q: Point| #[trigger] map.in_bounds(q) implies (map.blocked(q) <==> (q.y > height - 1 - (k + 1)
                    && cell_char(rv, q.x as int, q.y as int) == Some(obstacle_char))) by {
                    if q.y == y && q.x >= len {
                        assert(cell_char(rv, q.x as int, q.y as int) is None);
                    }
                }
            }
            k += 1;
        }
        Some(map)
    }

    /// The cost of a step between two adjacent cells: 1 under 4-way
    /// adjacency; otherwise the straight cost when the step keeps a
    /// coordinate and the diagonal cost when not.
    pub fn cost(&self, a: [i32; 2], b: [i32; 2]) -> (r: i32)
        ensures
            r == step_cost(self.adj(), Point::spec_from(a), Point::spec_from(b)),
    {
        self.step(Point::from_array(a), Point::from_array(b))
    }

    pub fn step(&self, a: Point, b: Point) -> (r: i32)
        ensures
            r == step_cost(self.adj(), a, b),
    {
        match self.adjacency {
            Adjacency::Cardinal => 1,
            Adjacency::Octile { cardinal_cost, diagonal_cost } => {
                if is_cardinal(a, b) {
                    cardinal_cost
                } else {
                    diagonal_cost
                }
            },
        }
    }

    /// The heuristic distance: taxicab under 4-way adjacency, octile under
    /// 8-way adjacency with the map's step costs.
    pub fn distance(&self, a: [i32; 2], b: [i32; 2]) -> (r: i32)
        requires
            heuristic_fits(self.adj(), Point::spec_from(a), Point::spec_from(b)),
        ensures
            r == heuristic(self.adj(), Point::spec_from(a), Point::spec_from(b)),
    {
        self.estimate(Point::from_array(a), Point::from_array(b))
    }

    pub fn estimate(&self, a: Point, b: Point) -> (r: i32)
        requires
            heuristic_fits(self.adj(), a, b),
        ensures
            r == heuristic(self.adj(), a, b),
    {
        match self.adjacency {
            Adjacency::Cardinal => cardinal_heuristic(a, b),
            Adjacency::Octile { cardinal_cost, diagonal_cost } => octile_heuristic(
                a,
                b,
                cardinal_cost,
                diagonal_cost,
            ),
        }
    }
}

/// The `i`-th neighbour offset.
fn offset(i: usize) -> (r: (i32, i32))
    requires
        i < 8,
    ensures
        r.0 as int == offsets()[i as int].0,
        r.1 as int == offsets()[i as int].1,
        -1 <= r.0 <= 1,
        -1 <= r.1 <= 1,
        r.0 != 0 || r.1 != 0,
{
    match i {
        0 => (0, 1),
        1 => (0, -1),
        2 => (-1, 0),
        3 => (1, 0),
        4 => (-1, 1),
        5 => (1, 1),
        6 => (-1, -1),
        _ => (1, -1),
    }
}

} // verus!
