//! A "Dijkstra map": a field of values over the grid computed outward from
//! weighted goal cells, for agents that step toward lower (or higher) values.
use vstd::prelude::*;
use sark_grids::BitGrid;
use crate::bindings::{
    bit_grid_new, exit_items, exits_get, exits_len, grid_bits, set_contains, set_insert,
    set_members, set_new, set_remove, PointSet,
};
use crate::min_heap::{is_least, MinHeap};
use crate::pathmap::{cell_index, interior, step_cost, steps_nonneg, steps_positive, walk_cost, PathMap2d};
use crate::pathfinder::is_walk;
use crate::point::Point;
use crate::text::{rows_of_len, cell_char, rows_view, split_rows, text_rows};
use crate::pathmap::text_grid_fits;

verus! {

/// The value every non-goal cell starts with: "not reached". It lies far
/// above any path cost on grids of realistic size.
pub const INITIAL_VALUE: i32 = 1_000_000_000;

/// The goal value a character of a text map stands for: its decimal digit.
pub open spec fn digit_value(c: Option<char>) -> Option<i32> {
    match c {
        Some(ch) => if '0' <= ch && ch <= '9' {
            Some((ch as u32 - '0' as u32) as i32)
        } else {
            None
        },
        None => None,
    }
}

fn char_digit(c: char) -> (r: Option<i32>)
    ensures
        r == digit_value(Some(c)),
{
    if '0' <= c && c <= '9' {
        Some((c as u32 - '0' as u32) as i32)
    } else {
        None
    }
}

/// `after` is what recalculating `before` over `pathing` gives. Size, goals
/// and initial value are kept. Exactly the cells one or more steps from a
/// goal count as reached. The field is settled, no value rises, and each
/// value is either the old one or an active neighbour's value plus the step
/// from it. A field already settled over the goals and the cells they reach
/// keeps its values.
pub open spec fn recalculated(before: DijkstraMap, after: DijkstraMap, pathing: PathMap2d) -> bool {
    &&& after.wf()
    &&& after.spec_width() == before.spec_width()
    &&& after.spec_height() == before.spec_height()
    &&& after.goal_set() == before.goal_set()
    &&& after.spec_initial() == before.spec_initial()
    &&& after.spec_values().len() == before.spec_values().len()
    &&& after.settled(pathing)
    &&& forall|i: int|
        0 <= i < before.spec_values().len() ==> #[trigger] after.spec_values()[i]
            <= before.spec_values()[i]
    &&& forall|n: Point| #[trigger]
        after.in_bounds(n) ==> (!after.unreached_at(n) <==> after.goal_reachable(pathing, n))
    &&& forall|p: Point| #[trigger]
        after.in_bounds(p) ==> after.value_at(p) == before.value_at(p) || after.stepped_to(pathing, p)
    &&& before.field_settled(pathing) ==> after.spec_values() == before.spec_values()
}

/// Recalculating twice with nothing changed in between gives the same field
/// both times: the same values and the same reached cells.
pub proof fn lemma_recalculate_idempotent(
    m0: DijkstraMap,
    m1: DijkstraMap,
    m2: DijkstraMap,
    pathing: PathMap2d,
)
    requires
        recalculated(m0, m1, pathing),
        recalculated(m1, m2, pathing),
    ensures
        m2.spec_values() == m1.spec_values(),
        forall|n: Point| #[trigger] m2.in_bounds(n) ==> m2.unreached_at(n) == m1.unreached_at(n),
{
    DijkstraMap::lemma_same_goals(m1, m2, pathing);
    assert forall|c: Point, n: Point|
        #![trigger m1.in_bounds(c), pathing.is_exit(c, n)]
        m1.in_bounds(c) && (m1.goal_set().contains(c) || m1.goal_reachable(pathing, c)) && pathing.is_exit(c, n)
            implies m1.value_at(n) <= m1.value_at(c) + step_cost(pathing.adj(), c, n) by {
        assert(m1.active(c));
    }
    assert(m1.field_settled(pathing));
    assert forall|n: Point| #[trigger] m2.in_bounds(n) implies m2.unreached_at(n) == m1.unreached_at(n) by {
        assert(m1.in_bounds(n));
    }
}

/// In a settled field, the value at `q` is at most the value at any active
/// cell `g` (a goal, or a reached cell) plus the cost of any walk from `g`
/// to `q`.
pub proof fn lemma_field_bounded_by_walks(
    m: DijkstraMap,
    pathing: PathMap2d,
    p: Seq<Point>,
    g: Point,
    q: Point,
)
    requires
        m.fits(pathing),
        m.settled(pathing),
        m.active(g),
        is_walk(pathing, p, g, q),
    ensures
        m.value_at(q) <= m.value_at(g) + walk_cost(pathing.adj(), p),
        p.len() >= 2 ==> !m.unreached_at(q),
    decreases p.len(),
{
    if p.len() >= 2 {
        let k = p.len() - 2;
        let prev = p[k];
        let front = p.drop_last();
        assert(pathing.is_exit(p[k], p[k + 1]));
        assert forall|i: int| 0 <= i < front.len() - 1 implies #[trigger] pathing.is_exit(front[i], front[i + 1]) by {
            assert(pathing.is_exit(p[i], p[i + 1]));
        }
        assert(is_walk(pathing, front, g, prev));
        lemma_field_bounded_by_walks(m, pathing, front, g, prev);
        if k > 0 {
            let j = k - 1;
            assert(pathing.is_exit(p[j], p[j + 1]));
        }
        assert(m.in_bounds(prev));
        assert(m.active(prev));
        assert(m.value_at(q) <= m.value_at(prev) + step_cost(pathing.adj(), prev, q));
    }
}

/// Before a recalculation the field is clean: every non-goal cell holds the
/// initial value, and no goal's value is above it.
pub open spec fn clean(m: DijkstraMap) -> bool {
    forall|q: Point| #[trigger]
        m.in_bounds(q) ==> if m.goal_set().contains(q) {
            m.value_at(q) <= m.spec_initial()
        } else {
            m.value_at(q) == m.spec_initial()
        }
}

/// After a recalculation of a clean field, a lowered value is some goal's
/// former value plus the cost of a walk from that goal.
proof fn lemma_lowered_from_goal(before: DijkstraMap, after: DijkstraMap, pathing: PathMap2d, p: Point) -> (res: (
    Point,
    Seq<Point>,
))
    requires
        recalculated(before, after, pathing),
        after.fits(pathing),
        clean(before),
        steps_positive(pathing.adj()),
        after.in_bounds(p),
        after.value_at(p) < before.value_at(p),
    ensures
        before.goal_set().contains(res.0),
        is_walk(pathing, res.1, res.0, p),
        after.value_at(p) == before.value_at(res.0) + walk_cost(pathing.adj(), res.1),
    decreases after.value_at(p) - i32::MIN,
{
    assert(after.stepped_to(pathing, p));
    let c = choose|c: Point| #[trigger] pathing.is_exit(c, p) && after.active(c) && after.value_at(p)
        == after.value_at(c) + step_cost(pathing.adj(), c, p);
    assert(step_cost(pathing.adj(), c, p) >= 1);
    let (g, w) = if after.value_at(c) < before.value_at(c) {
        lemma_lowered_from_goal(before, after, pathing, c)
    } else {
        let i = cell_index(after.spec_width(), c);
        crate::pathmap::lemma_index_in_range(after.spec_width(), after.spec_height(), c);
        assert(after.spec_values()[i] <= before.spec_values()[i]);
        assert(after.value_at(c) == before.value_at(c));
        if !before.goal_set().contains(c) {
            assert(before.in_bounds(c));
            assert(before.in_bounds(p));
            assert(before.value_at(p) <= before.spec_initial());
        }
        let w0 = seq![c];
        assert(is_walk(pathing, w0, c, c));
        assert(walk_cost(pathing.adj(), w0) == 0);
        (c, w0)
    };
    let w2 = w.push(p);
    lemma_walk_push(pathing, w, g, c, p);
    (g, w2)
}

/// Extending a walk by an exit of its last cell gives a walk, one step
/// dearer.
pub proof fn lemma_walk_push(pathing: PathMap2d, w: Seq<Point>, g: Point, a: Point, b: Point)
    requires
        is_walk(pathing, w, g, a),
        pathing.is_exit(a, b),
    ensures
        is_walk(pathing, w.push(b), g, b),
        walk_cost(pathing.adj(), w.push(b)) == walk_cost(pathing.adj(), w) + step_cost(pathing.adj(), a, b),
{
    let w2 = w.push(b);
    assert(w2.drop_last() =~= w);
    assert forall|i: int| 0 <= i < w2.len() - 1 implies #[trigger] pathing.is_exit(w2[i], w2[i + 1]) by {
        if i < w.len() - 1 {
            assert(pathing.is_exit(w[i], w[i + 1]));
        }
    }
}

/// After recalculating a clean field, each value is at most any goal's
/// former value plus the cost of any walk from it; and each value below the
/// initial value is exactly some goal's former value plus the cost of some
/// walk from it. So below the initial value, a cell's value is the least
/// goal value plus path cost.
pub proof fn lemma_field_least(before: DijkstraMap, after: DijkstraMap, pathing: PathMap2d, q: Point)
    requires
        recalculated(before, after, pathing),
        after.fits(pathing),
        clean(before),
        steps_positive(pathing.adj()),
        after.in_bounds(q),
    ensures
        forall|g: Point, w: Seq<Point>| #[trigger] is_walk(pathing, w, g, q) && before.goal_set().contains(g)
            ==> after.value_at(q) <= before.value_at(g) + walk_cost(pathing.adj(), w),
        after.value_at(q) < before.spec_initial() ==> exists|g: Point, w: Seq<Point>| #[trigger]
            is_walk(pathing, w, g, q) && before.goal_set().contains(g) && after.value_at(q)
                == before.value_at(g) + walk_cost(pathing.adj(), w),
{
    assert forall|g: Point, w: Seq<Point>| #[trigger] is_walk(pathing, w, g, q) && before.goal_set().contains(g)
        implies after.value_at(q) <= before.value_at(g) + walk_cost(pathing.adj(), w) by {
        assert(before.in_bounds(g));
        assert(after.active(g));
        lemma_field_bounded_by_walks(after, pathing, w, g, q);
        let i = cell_index(after.spec_width(), g);
        crate::pathmap::lemma_index_in_range(after.spec_width(), after.spec_height(), g);
        assert(after.spec_values()[i] <= before.spec_values()[i]);
    }
    if after.value_at(q) < before.spec_initial() {
        if after.value_at(q) < before.value_at(q) {
            let (g, w) = lemma_lowered_from_goal(before, after, pathing, q);
            assert(is_walk(pathing, w, g, q));
        } else {
            let i = cell_index(after.spec_width(), q);
            crate::pathmap::lemma_index_in_range(after.spec_width(), after.spec_height(), q);
            assert(after.spec_values()[i] <= before.spec_values()[i]);
            assert(before.in_bounds(q));
            assert(before.goal_set().contains(q));
            let w0 = seq![q];
            assert(is_walk(pathing, w0, q, q));
            assert(walk_cost(pathing.adj(), w0) == 0);
        }
    }
}

/// Goals whose values agree with each other (no goal is cheaper to reach
/// from another goal than its own value) keep their values through a
/// recalculation of a clean field.
pub proof fn lemma_goal_keeps_value(before: DijkstraMap, after: DijkstraMap, pathing: PathMap2d, g: Point)
    requires
        recalculated(before, after, pathing),
        after.fits(pathing),
        clean(before),
        steps_positive(pathing.adj()),
        before.goal_set().contains(g),
        forall|h: Point, w: Seq<Point>| #[trigger] is_walk(pathing, w, h, g) && before.goal_set().contains(h)
            ==> before.value_at(g) <= before.value_at(h) + walk_cost(pathing.adj(), w),
    ensures
        after.value_at(g) == before.value_at(g),
{
    assert(before.in_bounds(g));
    let i = cell_index(after.spec_width(), g);
    crate::pathmap::lemma_index_in_range(after.spec_width(), after.spec_height(), g);
    assert(after.spec_values()[i] <= before.spec_values()[i]);
    if after.value_at(g) < before.value_at(g) {
        let (h, w) = lemma_lowered_from_goal(before, after, pathing, g);
        assert(is_walk(pathing, w, h, g));
    }
}

/// `r` lists the entries of `pairs` (entry `i` of `r` being entry `ix[i]`
/// of `pairs`, each once) ordered by value, equal values in their order in
/// `pairs`.
pub open spec fn stable_order(r: Seq<(Point, i32)>, pairs: Seq<(Point, i32)>, ix: Seq<int>) -> bool {
    &&& r.len() == pairs.len()
    &&& ix.len() == r.len()
    &&& forall|i: int| 0 <= i < ix.len() ==> 0 <= #[trigger] ix[i] < pairs.len() && r[i] == pairs[ix[i]]
    &&& forall|a: int, b: int| 0 <= a < b < ix.len() ==> #[trigger] ix[a] != #[trigger] ix[b]
    &&& forall|a: int, b: int|
        0 <= a < b < r.len() ==> #[trigger] r[a].1 < #[trigger] r[b].1 || (r[a].1 == r[b].1 && ix[a] < ix[b])
}

/// Number of set bits.
pub open spec fn count_set(s: Seq<bool>) -> int
    decreases s.len(),
{
    if s.len() == 0 {
        0
    } else {
        count_set(s.drop_last()) + if s.last() {
            1int
        } else {
            0int
        }
    }
}

proof fn lemma_count_set(s: Seq<bool>, i: int, v: bool)
    requires
        0 <= i < s.len(),
    ensures
        count_set(s) >= 0,
        count_set(s.update(i, v)) == count_set(s) - (if s[i] {
            1int
        } else {
            0int
        }) + (if v {
            1int
        } else {
            0int
        }),
    decreases s.len(),
{
    let t = s.update(i, v);
    if i < s.len() - 1 {
        assert(t.drop_last() =~= s.drop_last().update(i, v));
        lemma_count_set(s.drop_last(), i, v);
    } else {
        assert(t.drop_last() =~= s.drop_last());
        lemma_count_nonneg(s.drop_last());
    }
}

proof fn lemma_count_nonneg(s: Seq<bool>)
    ensures
        count_set(s) >= 0,
    decreases s.len(),
{
    if s.len() > 0 {
        lemma_count_nonneg(s.drop_last());
    }
}

/// Sum of how far the values lie above `i32::MIN`.
pub open spec fn excess(s: Seq<i32>) -> int
    decreases s.len(),
{
    if s.len() == 0 {
        0
    } else {
        excess(s.drop_last()) + (s.last() - i32::MIN)
    }
}

proof fn lemma_excess_nonneg(s: Seq<i32>)
    ensures
        excess(s) >= 0,
    decreases s.len(),
{
    if s.len() > 0 {
        lemma_excess_nonneg(s.drop_last());
    }
}

proof fn lemma_excess_update(s: Seq<i32>, i: int, v: i32)
    requires
        0 <= i < s.len(),
    ensures
        excess(s.update(i, v)) == excess(s) + v - s[i],
    decreases s.len(),
{
    let t = s.update(i, v);
    if i < s.len() - 1 {
        assert(t.drop_last() =~= s.drop_last().update(i, v));
        lemma_excess_update(s.drop_last(), i, v);
    } else {
        assert(t.drop_last() =~= s.drop_last());
    }
}

/// A field of integer values over a grid, computed from goal cells by
/// uniform-cost propagation over a `PathMap2d`. Lower values are "closer".
pub struct DijkstraMap {
    values: Vec<i32>,
    goals: PointSet,
    obstacles: BitGrid,
    frontier: MinHeap,
    width: u32,
    height: u32,
    initial_value: i32,
}

impl DijkstraMap {
    pub closed spec fn spec_width(&self) -> int {
        self.width as int
    }

    pub closed spec fn spec_height(&self) -> int {
        self.height as int
    }

    /// The values, row by row from `y == 0`.
    pub closed spec fn spec_values(&self) -> Seq<i32> {
        self.values@
    }

    /// The goal cells.
    pub closed spec fn goal_set(&self) -> Set<Point> {
        self.goals@
    }

    /// Per cell, whether the last recalculation left it unreached.
    pub closed spec fn unreached_bits(&self) -> Seq<bool> {
        grid_bits(self.obstacles)
    }

    /// The value non-goal cells are reset to.
    pub closed spec fn spec_initial(&self) -> i32 {
        self.initial_value
    }

    pub open spec fn in_bounds(&self, p: Point) -> bool {
        0 <= p.x < self.spec_width() && 0 <= p.y < self.spec_height()
    }

    pub open spec fn value_at(&self, p: Point) -> i32 {
        self.spec_values()[cell_index(self.spec_width(), p)]
    }

    pub open spec fn unreached_at(&self, p: Point) -> bool {
        self.unreached_bits()[cell_index(self.spec_width(), p)]
    }

    pub closed spec fn wf(&self) -> bool {
        &&& self.values@.len() == self.width * self.height
        &&& grid_bits(self.obstacles).len() == self.width * self.height
        &&& self.width * self.height <= usize::MAX
        &&& self.width < i32::MAX
        &&& self.height < i32::MAX
        &&& self.frontier.wf()
        &&& forall|p: Point| #[trigger] self.goals@.contains(p) ==> self.in_bounds(p)
    }

    /// A well-formed map holds one value and one reach bit per cell.
    pub proof fn lemma_wf_shape(&self)
        requires
            self.wf(),
        ensures
            self.spec_values().len() == self.spec_width() * self.spec_height(),
            self.unreached_bits().len() == self.spec_width() * self.spec_height(),
            0 <= self.spec_width() < i32::MAX,
            0 <= self.spec_height() < i32::MAX,
            self.spec_width() * self.spec_height() <= usize::MAX,
            forall|p: Point| #[trigger] self.goal_set().contains(p) ==> self.in_bounds(p),
    {
    }

    /// The map covers the same cells as `pathing`.
    pub open spec fn fits(&self, pathing: PathMap2d) -> bool {
        &&& pathing.wf()
        &&& pathing.spec_width() == self.spec_width()
        &&& pathing.spec_height() == self.spec_height()
    }

    /// A cell the propagation works from: a goal, or a reached cell.
    pub open spec fn active(&self, c: Point) -> bool {
        self.in_bounds(c) && (self.goal_set().contains(c) || !self.unreached_at(c))
    }

    /// Some walk of one or more steps over `pathing` leads from a goal to
    /// `n`.
    pub open spec fn goal_reachable(&self, pathing: PathMap2d, n: Point) -> bool {
        exists|g: Point, w: Seq<Point>| #[trigger]
            is_walk(pathing, w, g, n) && self.goal_set().contains(g) && w.len() >= 2
    }

    /// Every exit of an active cell is reached, and no step from an active
    /// cell would lower the exit's value.
    pub open spec fn settled(&self, pathing: PathMap2d) -> bool {
        forall|c: Point, n: Point|
            #![trigger self.active(c), pathing.is_exit(c, n)]
            self.active(c) && pathing.is_exit(c, n) ==> self.value_at(n) <= self.value_at(c)
                + step_cost(pathing.adj(), c, n) && !self.unreached_at(n)
    }

    /// No step from a goal, or from a cell a goal reaches, would lower the
    /// value of its exit.
    pub open spec fn field_settled(&self, pathing: PathMap2d) -> bool {
        forall|c: Point, n: Point|
            #![trigger self.in_bounds(c), pathing.is_exit(c, n)]
            self.in_bounds(c) && (self.goal_set().contains(c) || self.goal_reachable(pathing, c))
                && pathing.is_exit(c, n) ==> self.value_at(n) <= self.value_at(c) + step_cost(
                pathing.adj(),
                c,
                n,
            )
    }

    /// `p` holds an active neighbour's value plus the step from it.
    pub open spec fn stepped_to(&self, pathing: PathMap2d, p: Point) -> bool {
        exists|c: Point| #[trigger]
            pathing.is_exit(c, p) && self.active(c) && self.value_at(p) == self.value_at(c) + step_cost(
                pathing.adj(),
                c,
                p,
            )
    }

    /// Cell `c` is processed: each exit is marked reached and holds at most
    /// the value through `c`.
    spec fn done_at(&self, pathing: PathMap2d, c: Point) -> bool {
        forall|n: Point| #[trigger]
            pathing.is_exit(c, n) ==> self.value_at(n) <= self.value_at(c) + step_cost(
                pathing.adj(),
                c,
                n,
            ) && !self.unreached_at(n)
    }

    spec fn queued(&self, c: Point) -> bool {
        exists|v: i32| #[trigger] self.frontier@.contains((v, c))
    }

    /// What holds while the propagation runs, against the values `v0` it
    /// started from.
    spec fn prop_inv(&self, pathing: PathMap2d, v0: Seq<i32>, was_settled: bool) -> bool {
        &&& self.wf()
        &&& self.fits(pathing)
        &&& steps_nonneg(pathing.adj())
        &&& v0.len() == self.values@.len()
        &&& forall|e: (i32, Point)| #[trigger] self.frontier@.contains(e) ==> self.active(e.1)
        &&& forall|n: Point| #[trigger]
            self.in_bounds(n) && !self.unreached_at(n) ==> self.goal_reachable(pathing, n)
        &&& forall|i: int| 0 <= i < v0.len() ==> #[trigger] self.values@[i] <= v0[i]
        &&& was_settled ==> self.values@ == v0
        &&& forall|p: Point| #[trigger]
            self.in_bounds(p) && self.value_at(p) < v0[cell_index(self.spec_width(), p)] ==> exists|c: Point|
                #[trigger] pathing.is_exit(c, p) && self.active(c) && self.value_at(c) + step_cost(
                    pathing.adj(),
                    c,
                    p,
                ) <= self.value_at(p)
    }

    /// Two maps with the same goals reach the same cells from them.
    proof fn lemma_same_goals(a: DijkstraMap, b: DijkstraMap, pathing: PathMap2d)
        requires
            a.goals@ == b.goals@,
        ensures
            forall|n: Point| #[trigger] a.goal_reachable(pathing, n) == b.goal_reachable(pathing, n),
    {
        assert forall|n: Point| #[trigger] a.goal_reachable(pathing, n) implies b.goal_reachable(pathing, n) by {
            let (g, w) = choose|g: Point, w: Seq<Point>| #[trigger] is_walk(pathing, w, g, n) && a.goal_set().contains(g) && w.len() >= 2;
            assert(is_walk(pathing, w, g, n) && b.goal_set().contains(g) && w.len() >= 2);
        }
        assert forall|n: Point| #[trigger] b.goal_reachable(pathing, n) implies a.goal_reachable(pathing, n) by {
            let (g, w) = choose|g: Point, w: Seq<Point>| #[trigger] is_walk(pathing, w, g, n) && b.goal_set().contains(g) && w.len() >= 2;
            assert(is_walk(pathing, w, g, n) && a.goal_set().contains(g) && w.len() >= 2);
        }
    }

    /// Dropping frontier entries keeps the propagation invariant.
    proof fn lemma_inv_frontier(a: DijkstraMap, b: DijkstraMap, pathing: PathMap2d, v0: Seq<i32>, ws: bool)
        requires
            a.prop_inv(pathing, v0, ws),
            b.values@ == a.values@,
            b.obstacles == a.obstacles,
            b.goals@ == a.goals@,
            b.width == a.width,
            b.height == a.height,
            b.frontier.wf(),
            forall|e: (i32, Point)| #[trigger] b.frontier@.contains(e) ==> a.frontier@.contains(e),
        ensures
            b.prop_inv(pathing, v0, ws),
    {
        Self::lemma_same_goals(a, b, pathing);
        assert forall|e: (i32, Point)| #[trigger] b.frontier@.contains(e) implies b.active(e.1) by {
            assert(a.frontier@.contains(e));
            assert(a.active(e.1));
        }
        assert forall|n: Point| #[trigger] b.in_bounds(n) && !b.unreached_at(n) implies b.goal_reachable(pathing, n) by {
            assert(a.in_bounds(n) && !a.unreached_at(n));
        }
        assert forall|p: Point| #[trigger]
            b.in_bounds(p) && b.value_at(p) < v0[cell_index(b.spec_width(), p)] implies exists|c: Point|
                #[trigger] pathing.is_exit(c, p) && b.active(c) && b.value_at(c) + step_cost(
                    pathing.adj(),
                    c,
                    p,
                ) <= b.value_at(p) by {
            assert(a.in_bounds(p));
            let c = choose|c: Point| #[trigger] pathing.is_exit(c, p) && a.active(c) && a.value_at(c) + step_cost(
                pathing.adj(), c, p) <= a.value_at(p);
            assert(b.active(c));
        }
    }

    /// Lowering values elsewhere and marking cells reached keeps a processed
    /// cell processed.
    proof fn lemma_done_mono(a: DijkstraMap, b: DijkstraMap, pathing: PathMap2d, c: Point)
        requires
            a.wf(),
            b.wf(),
            a.fits(pathing),
            a.width == b.width,
            a.height == b.height,
            a.done_at(pathing, c),
            b.value_at(c) == a.value_at(c),
            forall|i: int| 0 <= i < a.values@.len() ==> #[trigger] b.values@[i] <= a.values@[i],
            forall|i: int| 0 <= i < a.values@.len() && !a.unreached_bits()[i] ==> !#[trigger] b.unreached_bits()[i],
        ensures
            b.done_at(pathing, c),
    {
        assert forall|n: Point| #[trigger] pathing.is_exit(c, n) implies b.value_at(n) <= b.value_at(c) + step_cost(
            pathing.adj(), c, n) && !b.unreached_at(n) by {
            crate::pathmap::lemma_index_in_range(a.width as int, a.height as int, n);
            assert(a.value_at(n) <= a.value_at(c) + step_cost(pathing.adj(), c, n) && !a.unreached_at(n));
            let i = cell_index(a.spec_width(), n);
            assert(b.values@[i] <= a.values@[i]);
        }
    }

    /// While every bit is set, no cell counts as reached.
    proof fn lemma_all_unreached(&self)
        requires
            self.wf(),
            forall|i: int| 0 <= i < self.values@.len() ==> #[trigger] self.unreached_bits()[i],
        ensures
            forall|n: Point| #[trigger] self.in_bounds(n) ==> self.unreached_at(n),
    {
        assert forall|n: Point| #[trigger] self.in_bounds(n) implies self.unreached_at(n) by {
            crate::pathmap::lemma_index_in_range(self.width as int, self.height as int, n);
        }
    }

    fn index(&self, p: Point) -> (r: usize)
        requires
            self.wf(),
            self.in_bounds(p),
        ensures
            r == cell_index(self.spec_width(), p),
            r < self.values@.len(),
    {
        proof {
            crate::pathmap::lemma_index_in_range(self.width as int, self.height as int, p);
        }
        p.y as usize * self.width as usize + p.x as usize
    }

    /// Propagate values outward from the goals over `pathing`, by
    /// uniform-cost search: each cell taken from the frontier marks its
    /// exits reached, and an exit whose value the step from the cell would
    /// lower (the cell's value plus the step cost) takes that value. Cells
    /// are queued when first reached and whenever their value falls. Cells
    /// no goal reaches keep their value and stay unreached.
    pub fn recalculate(&mut self, pathing: &PathMap2d)
        requires
            old(self).wf(),
            old(self).fits(*pathing),
            steps_nonneg(pathing.adj()),
        ensures
            recalculated(*old(self), *final(self), *pathing),
    {
        let ghost v0 = self.values@;
        let ghost was_settled = self.field_settled(*pathing);
        self.obstacles.set_all(true);
        self.frontier.clear();
        proof {
            self.lemma_all_unreached();
        }
        let w = self.width;
        let h = self.height;
        let mut y: u32 = 0;
        while y < h
            invariant
                self.prop_inv(*pathing, v0, was_settled),
                v0 == old(self).values@,
                was_settled == old(self).field_settled(*pathing),
                self.values@ == v0,
                self.goals@ == old(self).goals@,
                self.width == w && self.height == h,
                self.width == old(self).width && self.height == old(self).height,
                self.initial_value == old(self).initial_value,
                forall|i: int| 0 <= i < self.values@.len() ==> #[trigger] self.unreached_bits()[i],
                forall|c: Point| #[trigger] self.active(c) && c.y < y ==> self.queued(c),
                y <= h,
            decreases h - y,
        {
            let mut x: u32 = 0;
            while x < w
                invariant
                    self.prop_inv(*pathing, v0, was_settled),
                    v0 == old(self).values@,
                    was_settled == old(self).field_settled(*pathing),
                    self.values@ == v0,
                    self.goals@ == old(self).goals@,
                    self.width == w && self.height == h,
                    self.width == old(self).width && self.height == old(self).height,
                    self.initial_value == old(self).initial_value,
                    forall|i: int| 0 <= i < self.values@.len() ==> #[trigger] self.unreached_bits()[i],
                    forall|c: Point| #[trigger] self.active(c) && (c.y < y || (c.y == y && c.x < x))
                        ==> self.queued(c),
                    y < h,
                    x <= w,
                decreases w - x,
            {
                let p = Point { x: x as i32, y: y as i32 };
                let i = self.index(p);
                let ghost before = *self;
                proof {
                    self.lemma_all_unreached();
                }
                if set_contains(&self.goals, p) {
                    self.frontier.insert(p, self.values[i]);
                    proof {
                        Self::lemma_same_goals(*self, before, *pathing);
                        assert forall|k: int| 0 <= k < self.values@.len() implies #[trigger] self.unreached_bits()[k] by {
                            assert(before.unreached_bits()[k]);
                        }
                        self.lemma_all_unreached();
                        assert(self.frontier@.contains((self.values@[i as int], p)));
                        assert forall|e: (i32, Point)| #[trigger] self.frontier@.contains(e) implies self.active(e.1) by {
                            if e != (self.values@[i as int], p) {
                                assert(before.frontier@.contains(e));
                                assert(before.active(e.1));
                            }
                        }
                        assert forall|c: Point| #[trigger] self.active(c) && (c.y < y || (c.y == y && c.x < x + 1))
                            implies self.queued(c) by {
                            if c != p {
                                assert(before.active(c));
                                assert(before.queued(c));
                                let v = choose|v: i32| #[trigger] before.frontier@.contains((v, c));
                                assert(self.frontier@.contains((v, c)));
                            }
                        }
                    }
                } else {
                    proof {
                        assert forall|c: Point| #[trigger] self.active(c) && (c.y < y || (c.y == y && c.x < x + 1))
                            implies self.queued(c) by {
                            if c == p {
                                assert(self.unreached_at(c));
                            }
                        }
                    }
                }
                x += 1;
            }
            y += 1;
        }
        proof {
            assert forall|c: Point| #[trigger] self.active(c) implies self.queued(c) || self.done_at(*pathing, c) by {
                assert(c.y < y);
            }
        }
        loop
            invariant
                self.prop_inv(*pathing, v0, was_settled),
                v0 == old(self).values@,
                was_settled == old(self).field_settled(*pathing),
                self.goals@ == old(self).goals@,
                self.width == old(self).width && self.height == old(self).height,
                self.initial_value == old(self).initial_value,
                forall|c: Point| #[trigger] self.active(c) ==> self.queued(c) || self.done_at(*pathing, c),
            ensures
                self.prop_inv(*pathing, v0, was_settled),
                self.goals@ == old(self).goals@,
                self.width == old(self).width && self.height == old(self).height,
                self.initial_value == old(self).initial_value,
                forall|c: Point| #[trigger] self.active(c) ==> self.done_at(*pathing, c),
            decreases count_set(grid_bits(self.obstacles)), 9 * excess(self.values@) + self.frontier@.len(),
        {
            proof {
                lemma_excess_nonneg(self.values@);
                lemma_count_nonneg(grid_bits(self.obstacles));
            }
            let ghost s0 = *self;
            let popped = self.frontier.pop();
            let curr = match popped {
                None => {
                    proof {
                        Self::lemma_inv_frontier(s0, *self, *pathing, v0, was_settled);
                        assert forall|c: Point| #[trigger] self.active(c) implies self.done_at(*pathing, c) by {
                            assert(s0.active(c));
                            if s0.queued(c) {
                                let v = choose|v: i32| #[trigger] s0.frontier@.contains((v, c));
                            }
                            assert(s0.done_at(*pathing, c));
                            assert forall|n: Point| #[trigger] pathing.is_exit(c, n) implies self.value_at(n) <= self.value_at(c) + step_cost(
                                pathing.adj(), c, n) && !self.unreached_at(n) by {
                                assert(s0.value_at(n) <= s0.value_at(c) + step_cost(pathing.adj(), c, n) && !s0.unreached_at(n));
                            }
                        }
                    }
                    break;
                },
                Some(c) => c,
            };
            let ghost s1 = *self;
            proof {
                let v = choose|v: i32| #![trigger is_least(s0.frontier@, (v, curr))]
                    is_least(s0.frontier@, (v, curr)) && s1.frontier@ == s0.frontier@.remove((v, curr));
                assert(s0.frontier@.contains((v, curr)));
                assert(s1.frontier@.len() == s0.frontier@.len() - 1);
                assert forall|e: (i32, Point)| #[trigger] s1.frontier@.contains(e) implies s0.frontier@.contains(e) by {}
                Self::lemma_inv_frontier(s0, s1, *pathing, v0, was_settled);
                assert(s0.active(curr));
                assert forall|c: Point| #[trigger] self.active(c) && c != curr implies self.queued(c) || self.done_at(*pathing, c) by {
                    assert(s0.active(c));
                    if !s0.queued(c) {
                        assert(s0.done_at(*pathing, c));
                        assert forall|n: Point| #[trigger] pathing.is_exit(c, n) implies self.value_at(n) <= self.value_at(c) + step_cost(
                            pathing.adj(), c, n) && !self.unreached_at(n) by {
                            assert(s0.value_at(n) <= s0.value_at(c) + step_cost(pathing.adj(), c, n) && !s0.unreached_at(n));
                        }
                    } else {
                        let d = choose|d: i32| #[trigger] s0.frontier@.contains((d, c));
                        assert((d, c) != (v, curr));
                        assert(self.frontier@.contains((d, c)));
                    }
                }
            }
            let ci = self.index(curr);
            let cv = self.values[ci];
            let exits = pathing.exits_of(curr);
            let n = exits_len(&exits);
            let mut j: usize = 0;
            while j < n
                invariant
                    self.prop_inv(*pathing, v0, was_settled),
                    v0 == old(self).values@,
                    was_settled == old(self).field_settled(*pathing),
                    self.goals@ == old(self).goals@,
                    self.width == old(self).width && self.height == old(self).height,
                    self.initial_value == old(self).initial_value,
                    self.active(curr),
                    ci == cell_index(self.spec_width(), curr),
                    ci < self.values@.len(),
                    self.values@[ci as int] == cv,
                    forall|q: Point| #[trigger] exit_items(exits).contains(q) <==> pathing.is_exit(curr, q),
                    forall|q: Point| #[trigger] exit_items(exits).contains(q) ==> q != curr,
                    n == exit_items(exits).len(),
                    j <= n,
                    forall|c: Point| #[trigger] self.active(c) && c != curr ==> self.queued(c) || self.done_at(*pathing, c),
                    forall|k: int| 0 <= k < j ==> ({
                        let e = #[trigger] exit_items(exits)[k];
                        self.value_at(e) <= cv + step_cost(pathing.adj(), curr, e) && !self.unreached_at(e)
                    }),
                    count_set(grid_bits(self.obstacles)) <= count_set(grid_bits(s1.obstacles)),
                    count_set(grid_bits(self.obstacles)) == count_set(grid_bits(s1.obstacles)) ==> 9 * excess(
                        self.values@,
                    ) + self.frontier@.len() <= 9 * excess(s1.values@) + s1.frontier@.len(),
                decreases n - j,
            {
                let next = exits_get(&exits, j);
                proof {
                    assert(exit_items(exits).contains(next));
                }
                let ni = self.index(next);
                let cand: i64 = cv as i64 + pathing.step(curr, next) as i64;
                let ghost before = *self;
                let was = self.obstacles.get_index(ni);
                self.obstacles.set_index(ni, false);
                proof {
                    lemma_count_set(grid_bits(before.obstacles), ni as int, false);
                    crate::pathmap::lemma_index_in_range(self.width as int, self.height as int, next);
                    crate::pathmap::lemma_index_in_range(self.width as int, self.height as int, curr);
                    Self::lemma_same_goals(*self, before, *pathing);
                    assert(self.goal_reachable(*pathing, next)) by {
                        if before.goal_set().contains(curr) {
                            let w0 = seq![curr];
                            assert(is_walk(*pathing, w0, curr, curr));
                            lemma_walk_push(*pathing, w0, curr, curr, next);
                            assert(is_walk(*pathing, w0.push(next), curr, next));
                        } else {
                            assert(before.in_bounds(curr) && !before.unreached_at(curr));
                            assert(before.goal_reachable(*pathing, curr));
                            let (g, wk) = choose|g: Point, wk: Seq<Point>| #[trigger] is_walk(*pathing, wk, g, curr)
                                && before.goal_set().contains(g) && wk.len() >= 2;
                            lemma_walk_push(*pathing, wk, g, curr, next);
                            assert(is_walk(*pathing, wk.push(next), g, next));
                        }
                    }
                    assert forall|m: Point| #[trigger] self.active(m) implies before.active(m) || m == next by {
                        if m != next {
                            crate::pathmap::lemma_index_in_range(self.width as int, self.height as int, m);
                            crate::pathmap::lemma_index_injective(self.width as int, self.height as int, m, next);
                        }
                    }
                    assert forall|m: Point| #[trigger] before.active(m) implies self.active(m) by {
                        crate::pathmap::lemma_index_in_range(self.width as int, self.height as int, m);
                        if m != next {
                            crate::pathmap::lemma_index_injective(self.width as int, self.height as int, m, next);
                        }
                    }
                    assert forall|m: Point| #[trigger] self.in_bounds(m) && !self.unreached_at(m) implies self.goal_reachable(*pathing, m) by {
                        if m != next {
                            crate::pathmap::lemma_index_in_range(self.width as int, self.height as int, m);
                            crate::pathmap::lemma_index_injective(self.width as int, self.height as int, m, next);
                            assert(before.in_bounds(m) && !before.unreached_at(m));
                        }
                    }
                    assert forall|e: (i32, Point)| #[trigger] self.frontier@.contains(e) implies self.active(e.1) by {
                        assert(before.active(e.1));
                    }
                    assert forall|p: Point| #[trigger]
                        self.in_bounds(p) && self.value_at(p) < v0[cell_index(self.spec_width(), p)] implies exists|c: Point|
                            #[trigger] pathing.is_exit(c, p) && self.active(c) && self.value_at(c) + step_cost(
                                pathing.adj(), c, p) <= self.value_at(p) by {
                        assert(before.in_bounds(p));
                        let c = choose|c: Point| #[trigger] pathing.is_exit(c, p) && before.active(c) && before.value_at(c) + step_cost(
                            pathing.adj(), c, p) <= before.value_at(p);
                        assert(self.active(c));
                    }
                }
                let ghost b2 = *self;
                if cand < self.values[ni] as i64 {
                    self.values.set(ni, cand as i32);
                    self.frontier.insert(next, cand as i32);
                    proof {
                        Self::lemma_same_goals(*self, b2, *pathing);
                        assert forall|m: Point| #[trigger] self.active(m) == b2.active(m) by {}
                        assert(self.frontier@.contains((cand as i32, next)));
                        assert forall|e: (i32, Point)| #[trigger] self.frontier@.contains(e) implies self.active(e.1) by {
                            if e != (cand as i32, next) {
                                assert(b2.frontier@.contains(e));
                                assert(b2.active(e.1));
                            }
                        }
                        assert forall|m: Point| #[trigger] self.in_bounds(m) && !self.unreached_at(m) implies self.goal_reachable(*pathing, m) by {
                            assert(b2.in_bounds(m) && !b2.unreached_at(m));
                        }
                        assert forall|p: Point| #[trigger]
                            self.in_bounds(p) && self.value_at(p) < v0[cell_index(self.spec_width(), p)] implies exists|c: Point|
                                #[trigger] pathing.is_exit(c, p) && self.active(c) && self.value_at(c) + step_cost(
                                    pathing.adj(), c, p) <= self.value_at(p) by {
                            crate::pathmap::lemma_index_in_range(self.width as int, self.height as int, p);
                            if p == next {
                                assert(pathing.is_exit(curr, next) && self.active(curr));
                                assert(self.value_at(curr) == cv) by {
                                    crate::pathmap::lemma_index_injective(self.width as int, self.height as int, curr, next);
                                }
                            } else {
                                crate::pathmap::lemma_index_injective(self.width as int, self.height as int, p, next);
                                assert(b2.in_bounds(p));
                                let c = choose|c: Point| #[trigger] pathing.is_exit(c, p) && b2.active(c) && b2.value_at(c) + step_cost(
                                    pathing.adj(), c, p) <= b2.value_at(p);
                                assert(self.active(c));
                                crate::pathmap::lemma_index_in_range(self.width as int, self.height as int, c);
                                assert(self.values@[cell_index(self.spec_width(), c)] <= b2.values@[cell_index(self.spec_width(), c)]);
                            }
                        }
                        if was_settled {
                            assert(b2.values@ == v0);
                            Self::lemma_same_goals(*old(self), b2, *pathing);
                            assert(b2.active(curr));
                            assert(old(self).in_bounds(curr));
                            if !old(self).goal_set().contains(curr) {
                                assert(b2.goal_reachable(*pathing, curr));
                            }
                            assert(pathing.is_exit(curr, next));
                            assert(old(self).value_at(next) <= old(self).value_at(curr) + step_cost(pathing.adj(), curr, next));
                        }
                        lemma_excess_update(b2.values@, ni as int, cand as i32);
                    }
                } else if was {
                    self.frontier.insert(next, self.values[ni]);
                    proof {
                        assert(self.frontier@.contains((self.values@[ni as int], next)));
                        assert forall|e: (i32, Point)| #[trigger] self.frontier@.contains(e) implies self.active(e.1) by {
                            if e != (self.values@[ni as int], next) {
                                assert(b2.frontier@.contains(e));
                                assert(b2.active(e.1));
                            }
                        }
                        Self::lemma_inv_frontier(b2, b2, *pathing, v0, was_settled);
                        assert forall|p: Point| #[trigger]
                            self.in_bounds(p) && self.value_at(p) < v0[cell_index(self.spec_width(), p)] implies exists|c: Point|
                                #[trigger] pathing.is_exit(c, p) && self.active(c) && self.value_at(c) + step_cost(
                                    pathing.adj(), c, p) <= self.value_at(p) by {
                            assert(b2.in_bounds(p));
                            let c = choose|c: Point| #[trigger] pathing.is_exit(c, p) && b2.active(c) && b2.value_at(c) + step_cost(
                                pathing.adj(), c, p) <= b2.value_at(p);
                            assert(self.active(c));
                        }
                        assert forall|m: Point| #[trigger] self.in_bounds(m) && !self.unreached_at(m) implies self.goal_reachable(*pathing, m) by {
                            assert(b2.in_bounds(m) && !b2.unreached_at(m));
                        }
                    }
                }
                proof {
                    assert forall|c: Point| #[trigger] self.active(c) && c != curr implies self.queued(c) || self.done_at(*pathing, c) by {
                        crate::pathmap::lemma_index_in_range(self.width as int, self.height as int, c);
                        crate::pathmap::lemma_index_in_range(self.width as int, self.height as int, next);
                        if c == next && (self.values@ != before.values@ || was) {
                            assert(self.frontier@.len() > 0);
                            if self.values@ != before.values@ {
                                assert(self.frontier@.contains((cand as i32, next)));
                            } else {
                                assert(self.frontier@.contains((self.values@[ni as int], next)));
                            }
                        } else {
                            assert(before.active(c)) by {
                                if c != next {
                                    crate::pathmap::lemma_index_injective(self.width as int, self.height as int, c, next);
                                }
                            }
                            if before.queued(c) {
                                let d = choose|d: i32| #[trigger] before.frontier@.contains((d, c));
                                assert(self.frontier@.contains((d, c)));
                            } else {
                                if c != next {
                                    crate::pathmap::lemma_index_injective(self.width as int, self.height as int, c, next);
                                }
                                assert forall|i: int| 0 <= i < before.values@.len() && !before.unreached_bits()[i]
                                    implies !#[trigger] self.unreached_bits()[i] by {}
                                Self::lemma_done_mono(before, *self, *pathing, c);
                            }
                        }
                    }
                    assert forall|k: int| 0 <= k < j + 1 implies ({
                        let e = #[trigger] exit_items(exits)[k];
                        self.value_at(e) <= cv + step_cost(pathing.adj(), curr, e) && !self.unreached_at(e)
                    }) by {
                        let e = exit_items(exits)[k];
                        assert(exit_items(exits).contains(e));
                        crate::pathmap::lemma_index_in_range(self.width as int, self.height as int, e);
                        crate::pathmap::lemma_index_in_range(self.width as int, self.height as int, next);
                        if k < j {
                            assert(before.value_at(e) <= cv + step_cost(pathing.adj(), curr, e) && !before.unreached_at(e));
                            if e != next {
                                crate::pathmap::lemma_index_injective(self.width as int, self.height as int, e, next);
                            }
                        }
                    }
                    assert(self.values@[ci as int] == cv) by {
                        crate::pathmap::lemma_index_in_range(self.width as int, self.height as int, curr);
                        crate::pathmap::lemma_index_injective(self.width as int, self.height as int, curr, next);
                    }
                    assert forall|i: int| 0 <= i < v0.len() implies #[trigger] self.values@[i] <= v0[i] by {
                        assert(before.values@[i] <= v0[i]);
                    }
                    assert(self.active(curr));
                }
                j += 1;
            }
            proof {
                assert forall|q: Point| #[trigger] pathing.is_exit(curr, q) implies self.value_at(q) <= self.value_at(curr)
                    + step_cost(pathing.adj(), curr, q) && !self.unreached_at(q) by {
                    assert(exit_items(exits).contains(q));
                    let k = choose|k: int| 0 <= k < exit_items(exits).len() && #[trigger] exit_items(exits)[k] == q;
                }
                assert(self.done_at(*pathing, curr));
                assert(s1.values@ == s0.values@);
                assert(grid_bits(s1.obstacles) == grid_bits(s0.obstacles));
                lemma_excess_nonneg(self.values@);
                lemma_excess_nonneg(s0.values@);
                lemma_count_nonneg(grid_bits(self.obstacles));
            }
        }
        proof {
            assert forall|c: Point, m: Point|
                #![trigger self.active(c), pathing.is_exit(c, m)]
                self.active(c) && pathing.is_exit(c, m) implies self.value_at(m) <= self.value_at(c)
                    + step_cost(pathing.adj(), c, m) && !self.unreached_at(m) by {
                assert(self.done_at(*pathing, c));
            }
            assert forall|m: Point| #[trigger] self.in_bounds(m) implies (!self.unreached_at(m)
                <==> self.goal_reachable(*pathing, m)) by {
                if self.goal_reachable(*pathing, m) {
                    let (g, wk) = choose|g: Point, wk: Seq<Point>| #[trigger] is_walk(*pathing, wk, g, m)
                        && self.goal_set().contains(g) && wk.len() >= 2;
                    assert(self.in_bounds(g));
                    assert(self.active(g));
                    lemma_field_bounded_by_walks(*self, *pathing, wk, g, m);
                }
            }
            assert forall|p: Point| #[trigger] self.in_bounds(p) implies self.value_at(p) == old(self).value_at(p)
                || self.stepped_to(*pathing, p) by {
                crate::pathmap::lemma_index_in_range(self.width as int, self.height as int, p);
                if self.value_at(p) != old(self).value_at(p) {
                    assert(self.values@[cell_index(self.spec_width(), p)] <= v0[cell_index(self.spec_width(), p)]);
                    let c = choose|c: Point| #[trigger] pathing.is_exit(c, p) && self.active(c) && self.value_at(c) + step_cost(
                        pathing.adj(), c, p) <= self.value_at(p);
                    assert(self.done_at(*pathing, c));
                }
            }
        }
    }

    /// A map of the given size: every cell holds `INITIAL_VALUE`, there are
    /// no goals, and every cell counts as reached.
    pub fn new(size: [u32; 2]) -> (r: DijkstraMap)
        requires
            size[0] as int * size[1] as int <= usize::MAX,
            size[0] < i32::MAX,
            size[1] < i32::MAX,
        ensures
            r.wf(),
            r.spec_width() == size[0],
            r.spec_height() == size[1],
            r.spec_values() == Seq::new(
                (size[0] as int * size[1] as int) as nat,
                |i: int| INITIAL_VALUE,
            ),
            r.goal_set() == Set::<Point>::empty(),
            r.spec_initial() == INITIAL_VALUE,
            forall|p: Point| #[trigger] r.in_bounds(p) ==> !r.unreached_at(p),
    {
        let n = size[0] as usize * size[1] as usize;
        let mut values: Vec<i32> = Vec::with_capacity(n);
        let mut i: usize = 0;
        while i < n
            invariant
                i <= n,
                values@ == Seq::new(i as nat, |k: int| INITIAL_VALUE),
            decreases n - i,
        {
            values.push(INITIAL_VALUE);
            i += 1;
            proof {
                assert(values@ =~= Seq::new(i as nat, |k: int| INITIAL_VALUE));
            }
        }
        let r = DijkstraMap {
            values,
            goals: set_new(),
            obstacles: bit_grid_new(size[0], size[1]),
            frontier: MinHeap::with_capacity(n),
            width: size[0],
            height: size[1],
            initial_value: INITIAL_VALUE,
        };
        proof {
            assert forall|p: Point| #[trigger] r.in_bounds(p) implies !r.unreached_at(p) by {
                crate::pathmap::lemma_index_in_range(r.width as int, r.height as int, p);
            }
        }
        r
    }

    /// Read a map from text laid out as for `PathMap2d::from_string`: `'#'`
    /// marks a cell unreached, a decimal digit makes the cell a goal with
    /// that value; other cells hold `INITIAL_VALUE`. `None` when the text
    /// has no non-empty line, when its lines differ in length, or when it
    /// makes a grid too large.
    pub fn from_string(s: &str) -> (r: Option<DijkstraMap>)
        ensures
            r is Some <==> text_grid_fits(text_rows(s@)),
            r is Some ==> r->0.wf() && r->0.spec_width() == crate::text::max_len(text_rows(s@))
                && r->0.spec_height() == text_rows(s@).len() && r->0.spec_initial() == INITIAL_VALUE,
            r is Some ==> forall|p: Point| #[trigger] r->0.in_bounds(p) ==> {
                &&& r->0.unreached_at(p) == (cell_char(text_rows(s@), p.x as int, p.y as int) == Some('#'))
                &&& r->0.goal_set().contains(p) == (digit_value(
                    cell_char(text_rows(s@), p.x as int, p.y as int),
                ) is Some)
                &&& r->0.value_at(p) == match digit_value(
                    cell_char(text_rows(s@), p.x as int, p.y as int),
                ) {
                    Some(v) => v,
                    None => INITIAL_VALUE,
                }
            },
    {
        let (rows, width) = split_rows(s);
        let ghost rv = text_rows(s@);
        let height = rows.len();
        if height == 0 || width >= i32::MAX as usize || height >= i32::MAX as usize {
            return None;
        }
        if !rows_of_len(&rows, width) {
            return None;
        }
        proof {
            assert(width as int * height as int <= 0x4000_0000_0000_0000) by (nonlinear_arith)
                requires
                    0 <= width < 0x8000_0000,
                    0 <= height < 0x8000_0000,
            ;
        }
        if width as u64 * height as u64 > usize::MAX as u64 {
            return None;
        }
        proof {
            crate::text::lemma_max_len(rv);
        }
        let mut m = DijkstraMap::new([width as u32, height as u32]);
        proof {
            assert forall|p: Point| #[trigger] m.in_bounds(p) implies m.value_at(p) == INITIAL_VALUE by {
                crate::pathmap::lemma_index_in_range(width as int, height as int, p);
            }
        }
        let mut k: usize = 0;
        while k < height
            invariant
                m.wf(),
                m.spec_width() == width,
                m.spec_height() == height,
                m.spec_initial() == INITIAL_VALUE,
                height == rows@.len(),
                rv == rows_view(rows@),
                forall|j: int| 0 <= j < rv.len() ==> #[trigger] rv[j].len() <= width,
                k <= height,
                forall|p: Point| #[trigger] m.in_bounds(p) ==> {
                    &&& m.unreached_at(p) == (p.y > height - 1 - k && cell_char(rv, p.x as int, p.y as int)
                        == Some('#'))
                    &&& m.goal_set().contains(p) == (p.y > height - 1 - k && digit_value(
                        cell_char(rv, p.x as int, p.y as int),
                    ) is Some)
                    &&& m.value_at(p) == if p.y > height - 1 - k && digit_value(
                        cell_char(rv, p.x as int, p.y as int),
                    ) is Some {
                        digit_value(cell_char(rv, p.x as int, p.y as int))->0
                    } else {
                        INITIAL_VALUE
                    }
                },
            decreases height - k,
        {
            let y = height - 1 - k;
            let row = &rows[k];
            let len = row.len();
            proof {
                assert(rv[k as int] == rows@[k as int]@);
            }
            let mut x: usize = 0;
            while x < len
                invariant
                    m.wf(),
                    m.spec_width() == width,
                    m.spec_height() == height,
                    m.spec_initial() == INITIAL_VALUE,
                    height == rows@.len(),
                    rv == rows_view(rows@),
                    forall|j: int| 0 <= j < rv.len() ==> #[trigger] rv[j].len() <= width,
                    k < height,
                    y == height - 1 - k,
                    row@ == rv[k as int],
                    len == row@.len(),
                    x <= len,
                    forall|p: Point| #[trigger] m.in_bounds(p) ==> {
                        &&& m.unreached_at(p) == ((p.y > y || (p.y == y && p.x < x)) && cell_char(
                            rv,
                            p.x as int,
                            p.y as int,
                        ) == Some('#'))
                        &&& m.goal_set().contains(p) == ((p.y > y || (p.y == y && p.x < x)) && digit_value(
                            cell_char(rv, p.x as int, p.y as int),
                        ) is Some)
                        &&& m.value_at(p) == if (p.y > y || (p.y == y && p.x < x)) && digit_value(
                            cell_char(rv, p.x as int, p.y as int),
                        ) is Some {
                            digit_value(cell_char(rv, p.x as int, p.y as int))->0
                        } else {
                            INITIAL_VALUE
                        }
                    },
                decreases len - x,
            {
                let p = Point { x: x as i32, y: y as i32 };
                let i = m.index(p);
                let c = row[x];
                let ghost before = m;
                proof {
                    assert(cell_char(rv, p.x as int, p.y as int) == Some(c));
                }
                if c == '#' {
                    m.obstacles.set_index(i, true);
                } else {
                    match char_digit(c) {
                        Some(v) => {
                            m.values.set(i, v);
                            set_insert(&mut m.goals, p);
                        },
                        None => {},
                    }
                }
                proof {
                    assert forall|q: Point| #[trigger] m.in_bounds(q) implies {
                        &&& m.unreached_at(q) == ((q.y > y || (q.y == y && q.x < x + 1)) && cell_char(
                            rv,
                            q.x as int,
                            q.y as int,
                        ) == Some('#'))
                        &&& m.goal_set().contains(q) == ((q.y > y || (q.y == y && q.x < x + 1)) && digit_value(
                            cell_char(rv, q.x as int, q.y as int),
                        ) is Some)
                        &&& m.value_at(q) == if (q.y > y || (q.y == y && q.x < x + 1)) && digit_value(
                            cell_char(rv, q.x as int, q.y as int),
                        ) is Some {
                            digit_value(cell_char(rv, q.x as int, q.y as int))->0
                        } else {
                            INITIAL_VALUE
                        }
                    } by {
                        assert(before.in_bounds(q));
                        crate::pathmap::lemma_index_in_range(width as int, height as int, q);
                        crate::pathmap::lemma_index_in_range(width as int, height as int, p);
                        if q != p {
                            crate::pathmap::lemma_index_injective(width as int, height as int, q, p);
                        }
                    }
                    assert forall|q: Point| #[trigger] m.goals@.contains(q) implies m.in_bounds(q) by {
                        if q != p {
                            assert(before.goals@.contains(q));
                        }
                    }
                }
                x += 1;
            }
            proof {
                assert forall|q: Point| #[trigger] m.in_bounds(q) && q.y == y && q.x >= len implies cell_char(
                    rv,
                    q.x as int,
                    q.y as int,
                ) is None by {}
            }
            k += 1;
        }
        Some(m)
    }

    /// Make `initial_value` the value that non-goal cells start from and are
    /// reset to, and give it to every cell now.
    pub fn with_initial_value(self, initial_value: i32) -> (r: DijkstraMap)
        requires
            self.wf(),
        ensures
            r.wf(),
            r.spec_width() == self.spec_width(),
            r.spec_height() == self.spec_height(),
            r.goal_set() == self.goal_set(),
            r.unreached_bits() == self.unreached_bits(),
            r.spec_initial() == initial_value,
            r.spec_values() == Seq::new(self.spec_values().len(), |i: int| initial_value),
    {
        let mut m = self;
        m.initial_value = initial_value;
        let n = m.values.len();
        let mut i: usize = 0;
        while i < n
            invariant
                m.wf(),
                n == m.values@.len(),
                i <= n,
                m.width == self.width && m.height == self.height,
                m.goals@ == self.goals@,
                m.obstacles == self.obstacles,
                m.initial_value == initial_value,
                forall|k: int| 0 <= k < i ==> #[trigger] m.values@[k] == initial_value,
            decreases n - i,
        {
            m.values.set(i, initial_value);
            i += 1;
        }
        proof {
            assert(m.values@ =~= Seq::new(self.spec_values().len(), |k: int| initial_value));
        }
        m
    }

    /// Add a goal at `xy` with the given value; lower-valued goals count as
    /// closer. Adding to an existing goal adds `value` to its value.
    pub fn add_goal(&mut self, xy: [i32; 2], value: i32)
        requires
            old(self).wf(),
            old(self).in_bounds(Point::spec_from(xy)),
            old(self).goal_set().contains(Point::spec_from(xy)) ==> i32::MIN <= old(self).value_at(
                Point::spec_from(xy),
            ) + value <= i32::MAX,
        ensures
            final(self).wf(),
            final(self).same_frame(*old(self)),
            final(self).goal_set() == old(self).goal_set().insert(Point::spec_from(xy)),
            final(self).spec_values() == old(self).spec_values().update(
                cell_index(old(self).spec_width(), Point::spec_from(xy)),
                if old(self).goal_set().contains(Point::spec_from(xy)) {
                    (old(self).value_at(Point::spec_from(xy)) + value) as i32
                } else {
                    value
                },
            ),
    {
        let p = Point::from_array(xy);
        let i = self.index(p);
        if set_contains(&self.goals, p) {
            let v = self.values[i];
            self.values.set(i, v + value);
        } else {
            self.values.set(i, value);
            set_insert(&mut self.goals, p);
        }
        proof {
            assert(self.goals@ =~= old(self).goals@.insert(p));
        }
    }

    /// Make `xy` a goal with exactly the given value.
    pub fn set_goal(&mut self, xy: [i32; 2], value: i32)
        requires
            old(self).wf(),
            old(self).in_bounds(Point::spec_from(xy)),
        ensures
            final(self).wf(),
            final(self).same_frame(*old(self)),
            final(self).goal_set() == old(self).goal_set().insert(Point::spec_from(xy)),
            final(self).spec_values() == old(self).spec_values().update(
                cell_index(old(self).spec_width(), Point::spec_from(xy)),
                value,
            ),
    {
        let p = Point::from_array(xy);
        let i = self.index(p);
        self.values.set(i, value);
        set_insert(&mut self.goals, p);
    }

    /// Stop treating `xy` as a goal; its value stays as it is.
    pub fn remove_goal(&mut self, xy: [i32; 2])
        requires
            old(self).wf(),
        ensures
            final(self).wf(),
            final(self).same_frame(*old(self)),
            final(self).goal_set() == old(self).goal_set().remove(Point::spec_from(xy)),
            final(self).spec_values() == old(self).spec_values(),
    {
        set_remove(&mut self.goals, Point::from_array(xy));
    }

    /// Same size, reach bits and initial value.
    pub open spec fn same_frame(&self, other: DijkstraMap) -> bool {
        &&& self.spec_width() == other.spec_width()
        &&& self.spec_height() == other.spec_height()
        &&& self.unreached_bits() == other.unreached_bits()
        &&& self.spec_initial() == other.spec_initial()
    }

    /// Each goal with its value, in no particular order.
    pub fn goals(&self) -> (r: Vec<(Point, i32)>)
        requires
            self.wf(),
        ensures
            r@.len() == self.goal_set().len(),
            forall|i: int| 0 <= i < r@.len() ==> self.goal_set().contains(#[trigger] r@[i].0)
                && r@[i].1 == self.value_at(r@[i].0),
            forall|g: Point| #[trigger] self.goal_set().contains(g) ==> exists|i: int|
                0 <= i < r@.len() && #[trigger] r@[i].0 == g,
    {
        let members = set_members(&self.goals);
        let mut r: Vec<(Point, i32)> = Vec::new();
        let mut i: usize = 0;
        proof {
            members@.unique_seq_to_set();
        }
        while i < members.len()
            invariant
                self.wf(),
                members@.to_set() == self.goals@,
                members@.no_duplicates(),
                members@.len() == self.goals@.len(),
                i <= members@.len(),
                r@.len() == i,
                forall|k: int| 0 <= k < i ==> #[trigger] r@[k].0 == members@[k] && r@[k].1 == self.value_at(members@[k]),
            decreases members@.len() - i,
        {
            let p = members[i];
            proof {
                assert(members@.to_set().contains(p));
            }
            let v = self.values[self.index(p)];
            r.push((p, v));
            i += 1;
        }
        proof {
            assert forall|k: int| 0 <= k < r@.len() implies self.goal_set().contains(#[trigger] r@[k].0) && r@[k].1 == self.value_at(r@[k].0) by {
                assert(members@.to_set().contains(members@[k]));
            }
            assert forall|g: Point| #[trigger] self.goal_set().contains(g) implies exists|k: int| 0 <= k < r@.len() && #[trigger] r@[k].0 == g by {
                assert(members@.to_set().contains(g));
                let k = choose|k: int| 0 <= k < members@.len() && members@[k] == g;
                assert(r@[k].0 == g);
            }
        }
        r
    }

    /// Reset every non-goal cell to the initial value.
    pub fn clear_values(&mut self)
        requires
            old(self).wf(),
        ensures
            final(self).wf(),
            final(self).same_frame(*old(self)),
            final(self).goal_set() == old(self).goal_set(),
            final(self).spec_values().len() == old(self).spec_values().len(),
            forall|p: Point| #[trigger] final(self).in_bounds(p) ==> final(self).value_at(p) == if old(
                self,
            ).goal_set().contains(p) {
                old(self).value_at(p)
            } else {
                old(self).spec_initial()
            },
    {
        let w = self.width;
        let h = self.height;
        let mut y: u32 = 0;
        while y < h
            invariant
                self.wf(),
                self.width == w && self.height == h,
                self.same_frame(*old(self)),
                self.goals@ == old(self).goals@,
                self.values@.len() == old(self).values@.len(),
                y <= h,
                forall|p: Point| #[trigger] self.in_bounds(p) ==> self.value_at(p) == if p.y < y {
                    if old(self).goal_set().contains(p) {
                        old(self).value_at(p)
                    } else {
                        old(self).spec_initial()
                    }
                } else {
                    old(self).value_at(p)
                },
            decreases h - y,
        {
            let mut x: u32 = 0;
            while x < w
                invariant
                    self.wf(),
                    self.width == w && self.height == h,
                    self.same_frame(*old(self)),
                    self.goals@ == old(self).goals@,
                    self.values@.len() == old(self).values@.len(),
                    y < h,
                    x <= w,
                    forall|p: Point| #[trigger] self.in_bounds(p) ==> self.value_at(p) == if p.y < y || (p.y
                        == y && p.x < x) {
                        if old(self).goal_set().contains(p) {
                            old(self).value_at(p)
                        } else {
                            old(self).spec_initial()
                        }
                    } else {
                        old(self).value_at(p)
                    },
                decreases w - x,
            {
                let p = Point { x: x as i32, y: y as i32 };
                let i = self.index(p);
                let ghost before = *self;
                if !set_contains(&self.goals, p) {
                    self.values.set(i, self.initial_value);
                }
                proof {
                    assert forall|q: Point| #[trigger] self.in_bounds(q) implies self.value_at(q) == if q.y < y || (q.y
                        == y && q.x < x + 1) {
                        if old(self).goal_set().contains(q) {
                            old(self).value_at(q)
                        } else {
                            old(self).spec_initial()
                        }
                    } else {
                        old(self).value_at(q)
                    } by {
                        assert(before.in_bounds(q));
                        crate::pathmap::lemma_index_in_range(w as int, h as int, q);
                        if q != p {
                            crate::pathmap::lemma_index_injective(w as int, h as int, q, p);
                        }
                    }
                }
                x += 1;
            }
            y += 1;
        }
    }

    /// Return to the initial state: forget all goals, reset every cell to
    /// the initial value, and count every cell as unreached until the next
    /// recalculation.
    pub fn clear_all(&mut self)
        requires
            old(self).wf(),
        ensures
            final(self).wf(),
            final(self).spec_width() == old(self).spec_width(),
            final(self).spec_height() == old(self).spec_height(),
            final(self).spec_initial() == old(self).spec_initial(),
            final(self).goal_set() == Set::<Point>::empty(),
            final(self).spec_values().len() == old(self).spec_values().len(),
            forall|p: Point| #[trigger] final(self).in_bounds(p) ==> final(self).value_at(p) == old(self).spec_initial(),
            forall|p: Point| #[trigger] final(self).in_bounds(p) ==> final(self).unreached_at(p),
    {
        self.goals.clear();
        self.obstacles.set_all(true);
        self.clear_values();
        proof {
            assert forall|p: Point| #[trigger] self.in_bounds(p) implies self.unreached_at(p) by {
                crate::pathmap::lemma_index_in_range(self.width as int, self.height as int, p);
            }
        }
    }

    /// Replace every value `v` by `operation(v)`.
    pub fn apply_operation<F: Fn(i32) -> i32>(&mut self, operation: F)
        requires
            old(self).wf(),
            forall|v: i32| operation.requires((v,)),
        ensures
            final(self).wf(),
            final(self).same_frame(*old(self)),
            final(self).goal_set() == old(self).goal_set(),
            final(self).spec_values().len() == old(self).spec_values().len(),
            forall|i: int| 0 <= i < old(self).spec_values().len() ==> operation.ensures(
                (old(self).spec_values()[i],),
                #[trigger] final(self).spec_values()[i],
            ),
    {
        let n = self.values.len();
        let mut i: usize = 0;
        while i < n
            invariant
                self.wf(),
                self.same_frame(*old(self)),
                self.goals@ == old(self).goals@,
                n == self.values@.len(),
                n == old(self).values@.len(),
                i <= n,
                forall|v: i32| operation.requires((v,)),
                forall|k: int| i <= k < n ==> #[trigger] self.values@[k] == old(self).values@[k],
                forall|k: int| 0 <= k < i ==> operation.ensures((old(self).values@[k],), #[trigger] self.values@[k]),
            decreases n - i,
        {
            let v = operation(self.values[i]);
            self.values.set(i, v);
            i += 1;
        }
    }

    /// The values, row by row from `y == 0`.
    pub fn values(&self) -> (r: &[i32])
        ensures
            r@ == self.spec_values(),
    {
        self.values.as_slice()
    }

    /// The map's size as `[width, height]`.
    pub fn size(&self) -> (r: [u32; 2])
        ensures
            r[0] == self.spec_width(),
            r[1] == self.spec_height(),
    {
        [self.width, self.height]
    }

    /// Each point paired with its value.
    pub open spec fn with_values(&self, s: Seq<Point>) -> Seq<(Point, i32)> {
        s.map_values(|q: Point| (q, self.value_at(q)))
    }

    /// The value at each exit of `p` on `pathing`.
    pub open spec fn exit_value_pairs(&self, pathing: PathMap2d, p: Point) -> Seq<(Point, i32)> {
        pathing.spec_exits(p).map_values(|q: Point| (q, self.value_at(q)))
    }

    /// The exits of `xy` on `pathing` with their values, ordered by value
    /// (lowest first); exits of equal value keep their exit order.
    pub fn exit_values(&self, xy: [i32; 2], pathing: &PathMap2d) -> (r: Vec<(Point, i32)>)
        requires
            self.wf(),
            self.fits(*pathing),
            interior(Point::spec_from(xy)),
        ensures
            r@.to_multiset() == self.exit_value_pairs(*pathing, Point::spec_from(xy)).to_multiset(),
            forall|i: int, j: int| 0 <= i < j < r@.len() ==> #[trigger] r@[i].1 <= #[trigger] r@[j].1,
            exists|ix: Seq<int>| #[trigger] stable_order(r@, self.exit_value_pairs(*pathing, Point::spec_from(xy)), ix),
    {
        self.sorted_exits(Point::from_array(xy), pathing).0
    }

    /// The exits of `xy` on `pathing`, ordered by value (lowest first);
    /// exits of equal value keep their exit order.
    pub fn exits(&self, xy: [i32; 2], pathing: &PathMap2d) -> (r: Vec<Point>)
        requires
            self.wf(),
            self.fits(*pathing),
            interior(Point::spec_from(xy)),
        ensures
            r@.to_multiset() == pathing.spec_exits(Point::spec_from(xy)).to_multiset(),
            forall|i: int, j: int| 0 <= i < j < r@.len() ==> self.value_at(#[trigger] r@[i]) <= self.value_at(
                #[trigger] r@[j],
            ),
            exists|ix: Seq<int>| #[trigger] stable_order(
                self.with_values(r@),
                self.exit_value_pairs(*pathing, Point::spec_from(xy)),
                ix,
            ),
    {
        let t = self.sorted_exits(Point::from_array(xy), pathing);
        proof {
            assert forall|i: int, j: int| 0 <= i < j < t.1@.len() implies self.value_at(#[trigger] t.1@[i])
                <= self.value_at(#[trigger] t.1@[j]) by {
                assert(t.0@[i] == (t.1@[i], self.value_at(t.1@[i])));
                assert(t.0@[j] == (t.1@[j], self.value_at(t.1@[j])));
                assert(t.0@[i].1 <= t.0@[j].1);
            }
            assert(t.0@ =~= self.with_values(t.1@));
        }
        t.1
    }

    fn sorted_exits(&self, p: Point, pathing: &PathMap2d) -> (r: (Vec<(Point, i32)>, Vec<Point>))
        requires
            self.wf(),
            self.fits(*pathing),
            interior(p),
        ensures
            r.0@.to_multiset() == self.exit_value_pairs(*pathing, p).to_multiset(),
            r.1@.to_multiset() == pathing.spec_exits(p).to_multiset(),
            r.0@.len() == r.1@.len(),
            forall|i: int| 0 <= i < r.0@.len() ==> #[trigger] r.0@[i] == (r.1@[i], self.value_at(r.1@[i])),
            forall|i: int, j: int| 0 <= i < j < r.0@.len() ==> #[trigger] r.0@[i].1 <= #[trigger] r.0@[j].1,
            exists|ix: Seq<int>| #[trigger] stable_order(r.0@, self.exit_value_pairs(*pathing, p), ix),
    {
        let exits = pathing.exits_of(p);
        let n = exits_len(&exits);
        let ghost pairs = self.exit_value_pairs(*pathing, p);
        let ghost ex = exit_items(exits);
        let mut r: Vec<(Point, i32)> = Vec::new();
        let mut pts: Vec<Point> = Vec::new();
        let mut j: usize = 0;
        let ghost mut ix: Seq<int> = Seq::empty();
        proof {
            broadcast use vstd::seq_lib::group_to_multiset_ensures;
            assert(pairs.take(0) =~= Seq::<(Point, i32)>::empty());
            assert(ex.take(0) =~= Seq::<Point>::empty());
            assert(r@ =~= Seq::<(Point, i32)>::empty());
            assert(pts@ =~= Seq::<Point>::empty());
            assert(stable_order(r@, pairs.take(0), ix));
        }
        while j < n
            invariant
                self.wf(),
                self.fits(*pathing),
                n == ex.len(),
                ex == exit_items(exits),
                ex == pathing.spec_exits(p),
                pairs == self.exit_value_pairs(*pathing, p),
                pairs.len() == n,
                j <= n,
                r@.to_multiset() == pairs.take(j as int).to_multiset(),
                pts@.to_multiset() == ex.take(j as int).to_multiset(),
                r@.len() == j,
                pts@.len() == j,
                forall|k: int| 0 <= k < r@.len() ==> #[trigger] r@[k] == (pts@[k], self.value_at(pts@[k])),
                forall|a: int, b: int| 0 <= a < b < r@.len() ==> #[trigger] r@[a].1 <= #[trigger] r@[b].1,
                stable_order(r@, pairs.take(j as int), ix),
            decreases n - j,
        {
            let e = exits_get(&exits, j);
            proof {
                assert(exit_items(exits).contains(e));
            }
            let v = self.values[self.index(e)];
            let mut pos: usize = 0;
            while pos < r.len() && r[pos].1 <= v
                invariant
                    pos <= r@.len(),
                    forall|k: int| 0 <= k < pos ==> #[trigger] r@[k].1 <= v,
                decreases r@.len() - pos,
            {
                pos += 1;
            }
            let ghost old_r = r@;
            let ghost old_pts = pts@;
            let ghost old_ix = ix;
            r.insert(pos, (e, v));
            pts.insert(pos, e);
            proof {
                ix = old_ix.insert(pos as int, j as int);
                let pt = pairs.take(j as int + 1);
                assert(pt[j as int] == (e, v));
                assert forall|i: int| 0 <= i < ix.len() implies 0 <= #[trigger] ix[i] < pt.len() && r@[i] == pt[ix[i]] by {
                    if i < pos {
                        assert(ix[i] == old_ix[i] && r@[i] == old_r[i]);
                        assert(pairs.take(j as int)[old_ix[i]] == pt[old_ix[i]]);
                    } else if i > pos {
                        assert(ix[i] == old_ix[i - 1] && r@[i] == old_r[i - 1]);
                        assert(pairs.take(j as int)[old_ix[i - 1]] == pt[old_ix[i - 1]]);
                    }
                }
                assert forall|a: int, b: int| 0 <= a < b < ix.len() implies #[trigger] ix[a] != #[trigger] ix[b] by {
                    if a != pos && b != pos {
                        let a0 = if a < pos { a } else { a - 1 };
                        let b0 = if b < pos { b } else { b - 1 };
                        assert(old_ix[a0] != old_ix[b0]);
                    } else if a == pos {
                        assert(old_ix[b - 1] < j);
                    } else {
                        assert(old_ix[a] < j);
                    }
                }
                assert forall|a: int, b: int| 0 <= a < b < r@.len() implies #[trigger] r@[a].1 < #[trigger] r@[b].1 || (r@[a].1 == r@[b].1
                    && ix[a] < ix[b]) by {
                    if pos < old_r.len() {
                        assert(old_r[pos as int].1 > v);
                    }
                    if a != pos && b != pos {
                        let a0 = if a < pos { a } else { a - 1 };
                        let b0 = if b < pos { b } else { b - 1 };
                        assert(old_r[a0].1 < old_r[b0].1 || (old_r[a0].1 == old_r[b0].1 && old_ix[a0] < old_ix[b0]));
                    } else if a == pos {
                        assert(old_r[pos as int].1 <= old_r[b - 1].1 || b - 1 == pos);
                    } else {
                        assert(old_r[a].1 <= v);
                        assert(old_ix[a] < j);
                    }
                }
                broadcast use vstd::seq_lib::group_to_multiset_ensures;
                assert(pairs[j as int] == (e, v));
                assert(pairs.take(j as int + 1) =~= pairs.take(j as int).push((e, v)));
                assert(ex.take(j as int + 1) =~= ex.take(j as int).push(e));
                assert forall|k: int| 0 <= k < r@.len() implies #[trigger] r@[k] == (pts@[k], self.value_at(pts@[k])) by {
                    if k < pos {
                        assert(r@[k] == old_r[k] && pts@[k] == old_pts[k]);
                    } else if k > pos {
                        assert(r@[k] == old_r[k - 1] && pts@[k] == old_pts[k - 1]);
                    }
                }
                assert forall|a: int, b: int| 0 <= a < b < r@.len() implies #[trigger] r@[a].1 <= #[trigger] r@[b].1 by {
                    if pos < old_r.len() {
                        assert(old_r[pos as int].1 > v);
                    }
                    if a < pos && b > pos {
                        assert(old_r[a].1 <= v);
                    }
                    if a == pos && b > pos {
                        assert(old_r[pos as int].1 <= old_r[b - 1].1 || b - 1 == pos);
                    }
                }
            }
            j += 1;
        }
        proof {
            assert(pairs.take(n as int) =~= pairs);
            assert(ex.take(n as int) =~= ex);
            assert(stable_order(r@, pairs, ix));
        }
        (r, pts)
    }

    /// The first exit of `xy` on `pathing`, in exit order, with the lowest
    /// value; `None` when `xy` has no exits.
    pub fn next_lowest(&self, xy: [i32; 2], pathing: &PathMap2d) -> (r: Option<Point>)
        requires
            self.wf(),
            self.fits(*pathing),
            interior(Point::spec_from(xy)),
        ensures
            r is None <==> pathing.spec_exits(Point::spec_from(xy)).len() == 0,
            r is Some ==> exists|k: int|
                0 <= k < pathing.spec_exits(Point::spec_from(xy)).len()
                && #[trigger] pathing.spec_exits(Point::spec_from(xy))[k] == r->0
                && forall|i: int| 0 <= i < pathing.spec_exits(Point::spec_from(xy)).len() ==> self.value_at(r->0) <= self.value_at(#[trigger] pathing.spec_exits(Point::spec_from(xy))[i])
                && forall|i: int| 0 <= i < k ==> self.value_at(r->0) < self.value_at(#[trigger] pathing.spec_exits(Point::spec_from(xy))[i]),
    {
        self.next_extreme(Point::from_array(xy), pathing, false)
    }

    /// The first exit of `xy` on `pathing`, in exit order, with the highest
    /// value; `None` when `xy` has no exits.
    pub fn next_highest(&self, xy: [i32; 2], pathing: &PathMap2d) -> (r: Option<Point>)
        requires
            self.wf(),
            self.fits(*pathing),
            interior(Point::spec_from(xy)),
        ensures
            r is None <==> pathing.spec_exits(Point::spec_from(xy)).len() == 0,
            r is Some ==> exists|k: int|
                0 <= k < pathing.spec_exits(Point::spec_from(xy)).len()
                && #[trigger] pathing.spec_exits(Point::spec_from(xy))[k] == r->0
                && forall|i: int| 0 <= i < pathing.spec_exits(Point::spec_from(xy)).len() ==> self.value_at(r->0) >= self.value_at(#[trigger] pathing.spec_exits(Point::spec_from(xy))[i])
                && forall|i: int| 0 <= i < k ==> self.value_at(r->0) > self.value_at(#[trigger] pathing.spec_exits(Point::spec_from(xy))[i]),
    {
        self.next_extreme(Point::from_array(xy), pathing, true)
    }

    /// `a` beats `b`: strictly higher when `highest`, else strictly lower.
    pub open spec fn beats(highest: bool, a: i32, b: i32) -> bool {
        if highest { a > b } else { a < b }
    }

    fn next_extreme(&self, p: Point, pathing: &PathMap2d, highest: bool) -> (r: Option<Point>)
        requires
            self.wf(),
            self.fits(*pathing),
            interior(p),
        ensures
            r is None <==> pathing.spec_exits(p).len() == 0,
            r is Some ==> exists|k: int|
                0 <= k < pathing.spec_exits(p).len()
                && #[trigger] pathing.spec_exits(p)[k] == r->0
                && forall|i: int| 0 <= i < pathing.spec_exits(p).len() ==> !Self::beats(highest, self.value_at(#[trigger] pathing.spec_exits(p)[i]), self.value_at(r->0))
                && forall|i: int| 0 <= i < k ==> Self::beats(highest, self.value_at(r->0), self.value_at(#[trigger] pathing.spec_exits(p)[i])),
    {
        let exits = pathing.exits_of(p);
        let n = exits_len(&exits);
        let ghost ex = exit_items(exits);
        if n == 0 {
            return None;
        }
        let first = exits_get(&exits, 0);
        proof {
            assert(ex.contains(first));
        }
        let mut best = first;
        let mut best_v = self.values[self.index(first)];
        let ghost mut bk: int = 0;
        let mut j: usize = 1;
        while j < n
            invariant
                self.wf(),
                self.fits(*pathing),
                ex == exit_items(exits),
                forall|q: Point| #[trigger] ex.contains(q) ==> pathing.is_exit(p, q),
                n == ex.len(),
                1 <= j <= n,
                0 <= bk < j,
                ex[bk] == best,
                best_v == self.value_at(best),
                forall|i: int| 0 <= i < j ==> !Self::beats(highest, self.value_at(#[trigger] ex[i]), best_v),
                forall|i: int| 0 <= i < bk ==> Self::beats(highest, best_v, self.value_at(#[trigger] ex[i])),
            decreases n - j,
        {
            let e = exits_get(&exits, j);
            proof {
                assert(ex.contains(e));
            }
            let v = self.values[self.index(e)];
            let better = if highest { v > best_v } else { v < best_v };
            if better {
                best = e;
                best_v = v;
                proof {
                    bk = j as int;
                }
            }
            j += 1;
        }
        proof {
            assert(ex[bk] == best);
        }
        Some(best)
    }

    /// Each cell reached by the last recalculation with its value, row by
    /// row from `y == 0`.
    pub fn iter_xy(&self) -> (r: Vec<(Point, i32)>)
        requires
            self.wf(),
        ensures
            forall|i: int| 0 <= i < r@.len() ==> self.in_bounds(#[trigger] r@[i].0) && !self.unreached_at(
                r@[i].0,
            ) && r@[i].1 == self.value_at(r@[i].0),
            forall|p: Point| #[trigger] self.in_bounds(p) && !self.unreached_at(p) ==> exists|i: int|
                0 <= i < r@.len() && #[trigger] r@[i].0 == p,
    {
        let w = self.width;
        let h = self.height;
        let mut r: Vec<(Point, i32)> = Vec::new();
        let mut y: u32 = 0;
        while y < h
            invariant
                self.wf(),
                w == self.width && h == self.height,
                y <= h,
                forall|i: int| 0 <= i < r@.len() ==> self.in_bounds(#[trigger] r@[i].0) && !self.unreached_at(
                    r@[i].0,
                ) && r@[i].1 == self.value_at(r@[i].0),
                forall|p: Point| #[trigger] self.in_bounds(p) && !self.unreached_at(p) && p.y < y ==> exists|i: int|
                    0 <= i < r@.len() && #[trigger] r@[i].0 == p,
            decreases h - y,
        {
            let mut x: u32 = 0;
            while x < w
                invariant
                    self.wf(),
                    w == self.width && h == self.height,
                    y < h,
                    x <= w,
                    forall|i: int| 0 <= i < r@.len() ==> self.in_bounds(#[trigger] r@[i].0) && !self.unreached_at(
                        r@[i].0,
                    ) && r@[i].1 == self.value_at(r@[i].0),
                    forall|p: Point| #[trigger] self.in_bounds(p) && !self.unreached_at(p) && (p.y < y || (p.y == y
                        && p.x < x)) ==> exists|i: int| 0 <= i < r@.len() && #[trigger] r@[i].0 == p,
                decreases w - x,
            {
                let p = Point { x: x as i32, y: y as i32 };
                let i = self.index(p);
                let ghost old_r = r@;
                if !self.obstacles.get_index(i) {
                    r.push((p, self.values[i]));
                    proof {
                        assert(r@[old_r.len() as int].0 == p);
                    }
                }
                proof {
                    assert forall|q: Point| #[trigger] self.in_bounds(q) && !self.unreached_at(q) && (q.y < y || (q.y == y
                        && q.x < x + 1)) implies exists|k: int| 0 <= k < r@.len() && #[trigger] r@[k].0 == q by {
                        if q != p {
                            let k = choose|k: int| 0 <= k < old_r.len() && #[trigger] old_r[k].0 == q;
                            assert(r@[k].0 == q);
                        } else {
                            assert(r@[old_r.len() as int].0 == p);
                        }
                    }
                }
                x += 1;
            }
            y += 1;
        }
        r
    }
}

} // verus!
