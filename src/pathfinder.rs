//! Search over a `PathMap2d`: A*, Dijkstra and breadth-first search, with
//! path reconstruction from the recorded parents.
use vstd::prelude::*;
use vstd::multiset::Multiset;
use crate::bindings::{
    exit_items, exits_get, exits_len, map_get, map_insert, map_keys, map_len, map_new, PointMap,
};
use crate::grid_sum::{
    grid_sum, in_grid, key_count, lemma_count_bound, lemma_count_insert, lemma_grid_bounds,
    lemma_grid_update,
};
use crate::min_heap::MinHeap;
use crate::pathmap::Adjacency;
use crate::pathmap::{
    heuristic, lemma_heuristic_bounds, max_step, search_fits, step_cost, walk_cost, PathMap2d,
};
use crate::point::{abs_int, min_int, Point};

verus! {

/// The point `k` parent steps above `x`, if every step is recorded.
pub open spec fn ancestor(cf: Map<Point, Point>, x: Point, k: nat) -> Option<Point>
    decreases k,
{
    if k == 0 {
        Some(x)
    } else {
        match ancestor(cf, x, (k - 1) as nat) {
            Some(y) => if cf.contains_key(y) {
                Some(cf[y])
            } else {
                None
            },
            None => None,
        }
    }
}

/// Following parents from `from` reaches `to` within as many steps as there
/// are recorded parents.
pub open spec fn reaches(cf: Map<Point, Point>, from: Point, to: Point) -> bool {
    exists|k: nat| k <= cf.len() && #[trigger] ancestor(cf, from, k) == Some(to)
}

/// `p` runs from `start` to `goal`, each element the recorded parent of the
/// next.
pub open spec fn is_chain(cf: Map<Point, Point>, p: Seq<Point>, start: Point, goal: Point) -> bool {
    &&& p.len() >= 1
    &&& p[0] == start
    &&& p[p.len() - 1] == goal
    &&& forall|i: int|
        0 <= i < p.len() - 1 ==> #[trigger] cf.contains_key(p[i + 1]) && cf[p[i + 1]] == p[i]
}

/// `p` is a walk over the exits of `map` from `start` to `goal`.
pub open spec fn is_walk(map: PathMap2d, p: Seq<Point>, start: Point, goal: Point) -> bool {
    &&& p.len() >= 1
    &&& p[0] == start
    &&& p[p.len() - 1] == goal
    &&& forall|i: int| 0 <= i < p.len() - 1 ==> #[trigger] map.is_exit(p[i], p[i + 1])
}

/// Some walk over the exits of `map` leads from `start` to `goal`.
pub open spec fn connected(map: PathMap2d, start: Point, goal: Point) -> bool {
    exists|p: Seq<Point>| #[trigger] is_walk(map, p, start, goal)
}

/// The cost recorded for `p`, 0 where none is.
pub open spec fn cost_fn(cs: Map<Point, i32>) -> spec_fn(Point) -> int {
    |p: Point| if cs.contains_key(p) { cs[p] as int } else { 0int }
}

pub open spec fn cost_sum(cs: Map<Point, i32>, w: int, h: int) -> int {
    grid_sum(cost_fn(cs), w, h)
}

proof fn lemma_ancestor_none(cf: Map<Point, Point>, x: Point, k: nat, j: nat)
    requires
        ancestor(cf, x, k) is None,
        k <= j,
    ensures
        ancestor(cf, x, j) is None,
    decreases j - k,
{
    if k < j {
        lemma_ancestor_none(cf, x, k, (j - 1) as nat);
    }
}

proof fn lemma_ancestor_step(cf: Map<Point, Point>, x: Point, k: nat)
    requires
        cf.contains_key(x),
    ensures
        ancestor(cf, x, k + 1) == ancestor(cf, cf[x], k),
    decreases k,
{
    assert(ancestor(cf, x, 0) == Some(x));
    if k > 0 {
        lemma_ancestor_step(cf, x, (k - 1) as nat);
        assert(ancestor(cf, x, k + 1) == match ancestor(cf, x, k) {
            Some(y) => if cf.contains_key(y) {
                Some(cf[y])
            } else {
                None
            },
            None => None,
        });
    }
}

/// Recorded parents lead every recorded cell back to `root` along strictly
/// falling costs.
pub open spec fn parents_descend(cs: Map<Point, i32>, cf: Map<Point, Point>, root: Point) -> bool {
    &&& cs.contains_key(root)
    &&& forall|p: Point| #[trigger] cs.contains_key(p) ==> cs[p] >= 0
    &&& forall|n: Point| #[trigger]
        cf.contains_key(n) && n != root ==> cs.contains_key(n) && cs.contains_key(cf[n]) && cs[cf[n]]
            < cs[n]
    &&& forall|p: Point| #[trigger] cs.contains_key(p) && p != root ==> cf.contains_key(p)
}

proof fn lemma_chain_set(cs: Map<Point, i32>, cf: Map<Point, Point>, root: Point, x: Point) -> (res: (
    nat,
    Set<Point>,
))
    requires
        parents_descend(cs, cf, root),
        cs.contains_key(x),
    ensures
        ancestor(cf, x, res.0) == Some(root),
        res.1.subset_of(cf.dom()),
        res.1.finite(),
        res.1.len() == res.0,
        forall|y: Point| #[trigger] res.1.contains(y) ==> cs.contains_key(y) && cs[y] <= cs[x],
    decreases cs[x],
{
    if x == root {
        (0, Set::empty())
    } else {
        let y = cf[x];
        let (k, set) = lemma_chain_set(cs, cf, root, y);
        lemma_ancestor_step(cf, x, k);
        assert(!set.contains(x));
        (k + 1, set.insert(x))
    }
}

/// Under `parents_descend`, parents lead from each recorded cell to `root`.
pub proof fn lemma_reaches_root(cs: Map<Point, i32>, cf: Map<Point, Point>, root: Point, x: Point)
    requires
        parents_descend(cs, cf, root),
        cs.contains_key(x),
        cf.dom().finite(),
    ensures
        reaches(cf, x, root),
{
    let (k, set) = lemma_chain_set(cs, cf, root, x);
    vstd::set_lib::lemma_len_subset(set, cf.dom());
    assert(ancestor(cf, x, k) == Some(root));
}

/// When every recorded cell has all its exits recorded, every cell that a
/// walk from a recorded `root` reaches is recorded.
pub proof fn lemma_walk_recorded(map: PathMap2d, cs: Set<Point>, root: Point, p: Seq<Point>, q: Point)
    requires
        cs.contains(root),
        forall|a: Point, b: Point| #[trigger] cs.contains(a) && #[trigger] map.is_exit(a, b) ==> cs.contains(b),
        is_walk(map, p, root, q),
    ensures
        cs.contains(q),
{
    lemma_walk_prefix(map, cs, root, p, q, p.len() - 1);
}

proof fn lemma_walk_prefix(map: PathMap2d, cs: Set<Point>, root: Point, p: Seq<Point>, q: Point, i: int)
    requires
        cs.contains(root),
        forall|a: Point, b: Point| #[trigger] cs.contains(a) && #[trigger] map.is_exit(a, b) ==> cs.contains(b),
        is_walk(map, p, root, q),
        0 <= i < p.len(),
    ensures
        cs.contains(p[i]),
    decreases i,
{
    if i > 0 {
        lemma_walk_prefix(map, cs, root, p, q, i - 1);
        let j = i - 1;
        assert(map.is_exit(p[j], p[j + 1]));
    }
}

/// Where a search with an optional start begins: at the start if there is
/// one, else at the goal.
pub open spec fn search_root(start: Option<[i32; 2]>, goal: [i32; 2]) -> Point {
    match start {
        Some(s) => Point::spec_from(s),
        None => Point::spec_from(goal),
    }
}

/// A walk found from a cell free of obstacles goes from `start` to `goal`,
/// and each two consecutive cells are exits of each other.
pub proof fn lemma_walk_steps_mutual(map: PathMap2d, p: Seq<Point>, start: Point, goal: Point)
    requires
        map.wf(),
        map.passable(start),
        is_walk(map, p, start, goal),
    ensures
        p[0] == start,
        p[p.len() - 1] == goal,
        forall|i: int| 0 <= i < p.len() - 1 ==> #[trigger] map.is_exit(p[i], p[i + 1]) && map.is_exit(p[i + 1], p[i]),
{
    assert forall|i: int| 0 <= i < p.len() - 1 implies #[trigger] map.is_exit(p[i], p[i + 1]) && map.is_exit(p[i + 1], p[i]) by {
        assert(map.is_exit(p[i], p[i + 1]));
        if i > 0 {
            let k = i - 1;
            assert(map.is_exit(p[k], p[k + 1]));
        }
        assert(map.passable(p[i]));
        crate::pathmap::lemma_neighbours_symmetric(map.adj(), p[i], p[i + 1]);
    }
}

/// Cells that no exit leads out of: once a walk is inside, it stays inside.
pub open spec fn encloses(map: PathMap2d, region: Set<Point>) -> bool {
    forall|a: Point, b: Point| #[trigger] region.contains(a) && #[trigger] map.is_exit(a, b) ==> region.contains(b)
}

/// When `start` lies in a region that no exit leads out of (a ring of
/// obstacles around it) and `goal` outside it, no walk joins them, so A*
/// finds no path.
pub proof fn lemma_enclosed_no_path(map: PathMap2d, region: Set<Point>, start: Point, goal: Point)
    requires
        encloses(map, region),
        region.contains(start),
        !region.contains(goal),
    ensures
        !connected(map, start, goal),
{
    if connected(map, start, goal) {
        let w = choose|w: Seq<Point>| #[trigger] is_walk(map, w, start, goal);
        lemma_walk_recorded(map, region, start, w, goal);
    }
}

/// No step over an exit lowers a recorded cost: each exit of a recorded
/// cell is recorded at no more than the cell's cost plus the step.
pub open spec fn costs_settled(map: PathMap2d, cs: Map<Point, i32>) -> bool {
    forall|a: Point, b: Point| #[trigger] cs.contains_key(a) && #[trigger] map.is_exit(a, b)
        ==> cs.contains_key(b) && cs[b] <= cs[a] + step_cost(map.adj(), a, b)
}

/// Each recorded parent's cost plus the step from it is the child's cost.
pub open spec fn parents_exact(map: PathMap2d, cs: Map<Point, i32>, cf: Map<Point, Point>) -> bool {
    forall|n: Point| #[trigger]
        cf.contains_key(n) ==> cs.contains_key(n) && cs.contains_key(cf[n]) && cs[n] == cs[cf[n]]
            + step_cost(map.adj(), cf[n], n)
}

/// With settled costs from a `root` of cost 0 (what an exhaustive Dijkstra
/// run leaves), the cost recorded for a cell is at most the cost of any walk
/// to it from `root`.
pub proof fn lemma_costs_at_most_walks(map: PathMap2d, cs: Map<Point, i32>, root: Point, p: Seq<Point>, q: Point)
    requires
        cs.contains_key(root),
        cs[root] == 0,
        costs_settled(map, cs),
        is_walk(map, p, root, q),
    ensures
        cs.contains_key(q),
        cs[q] <= walk_cost(map.adj(), p),
    decreases p.len(),
{
    if p.len() >= 2 {
        let k = p.len() - 2;
        let front = p.drop_last();
        assert(map.is_exit(p[k], p[k + 1]));
        assert forall|i: int| 0 <= i < front.len() - 1 implies #[trigger] map.is_exit(front[i], front[i + 1]) by {
            assert(map.is_exit(p[i], p[i + 1]));
        }
        lemma_costs_at_most_walks(map, cs, root, front, p[k]);
    }
}

/// With exact parents from a `root` of cost 0, a chain of parents from
/// `root` to `q` (what `build_path` returns) costs exactly the cost recorded
/// for `q`.
pub proof fn lemma_chain_cost(map: PathMap2d, cs: Map<Point, i32>, cf: Map<Point, Point>, p: Seq<Point>, root: Point, q: Point)
    requires
        cs.contains_key(root),
        cs[root] == 0,
        parents_exact(map, cs, cf),
        is_chain(cf, p, root, q),
    ensures
        cs.contains_key(q),
        walk_cost(map.adj(), p) == cs[q],
    decreases p.len(),
{
    if p.len() >= 2 {
        let k = p.len() - 2;
        let front = p.drop_last();
        assert(cf.contains_key(p[k + 1]) && cf[p[k + 1]] == p[k]);
        assert forall|i: int| 0 <= i < front.len() - 1 implies #[trigger] cf.contains_key(front[i + 1]) && cf[front[i + 1]] == front[i] by {
            assert(cf.contains_key(p[i + 1]) && cf[p[i + 1]] == p[i]);
        }
        lemma_chain_cost(map, cs, cf, front, root, p[k]);
    }
}

/// The heuristic is consistent toward `goal`: it never drops by more than
/// the cost of a step.
pub open spec fn consistent_toward(map: PathMap2d, goal: Point) -> bool {
    forall|x: Point, y: Point| #[trigger]
        map.is_exit(x, y) && map.in_bounds(x) ==> heuristic(map.adj(), goal, x) <= step_cost(map.adj(), x, y) + heuristic(
            map.adj(),
            goal,
            y,
        )
}

proof fn lemma_octile_step(a: int, b: int, a2: int, b2: int, c: int, d: int)
    requires
        a >= 0,
        b >= 0,
        a2 >= 0,
        b2 >= 0,
        -1 <= a - a2 <= 1,
        -1 <= b - b2 <= 1,
        1 <= c <= d <= 2 * c,
    ensures
        c * abs_int(a - b) + d * min_int(a, b) <= (if a == a2 || b == b2 {
            c
        } else {
            d
        }) + c * abs_int(a2 - b2) + d * min_int(a2, b2),
{
    let e = abs_int(a - b);
    let e2 = abs_int(a2 - b2);
    let m = min_int(a, b);
    let m2 = min_int(a2, b2);
    let s = if a == a2 || b == b2 { c } else { d };
    assert(c * e - c * e2 == c * (e - e2)) by (nonlinear_arith);
    assert(d * m - d * m2 == d * (m - m2)) by (nonlinear_arith);
    assert(-2 <= e - e2 <= 2);
    assert(-1 <= m - m2 <= 1);
    assert(c * (e - e2) + d * (m - m2) <= s) by (nonlinear_arith)
        requires
            1 <= c <= d <= 2 * c,
            -2 <= e - e2 <= 2,
            -1 <= m - m2 <= 1,
            s == c || s == d,
            (a == a2 || b == b2) ==> s == c,
            !(a == a2 || b == b2) ==> s == d,
            e == abs_int(a - b),
            e2 == abs_int(a2 - b2),
            m == min_int(a, b),
            m2 == min_int(a2, b2),
            -1 <= a - a2 <= 1,
            -1 <= b - b2 <= 1,
    ;
}

/// The heuristic is consistent on a 4-way map, and on an 8-way map whose
/// diagonal step costs at least a straight step and at most two (the
/// default costs among them).
pub proof fn lemma_heuristic_consistent(map: PathMap2d, goal: Point)
    requires
        map.wf(),
        match map.adj() {
            Adjacency::Cardinal => true,
            Adjacency::Octile { cardinal_cost, diagonal_cost } => 1 <= cardinal_cost <= diagonal_cost
                <= 2 * cardinal_cost,
        },
    ensures
        consistent_toward(map, goal),
{
    let adj = map.adj();
    assert forall|x: Point, y: Point| #[trigger] map.is_exit(x, y) && map.in_bounds(x) implies heuristic(adj, goal, x)
        <= step_cost(adj, x, y) + heuristic(adj, goal, y) by {
        let nb = crate::pathmap::neighbours(adj, x);
        let i = choose|i: int| 0 <= i < nb.len() && #[trigger] nb[i] == y;
        let o = crate::pathmap::offsets();
        assert(o[0] == (0int, 1int) && o[1] == (0int, -1int) && o[2] == (-1int, 0int) && o[3] == (1int, 0int));
        assert(o[4] == (-1int, 1int) && o[5] == (1int, 1int) && o[6] == (-1int, -1int) && o[7] == (1int, -1int));
        assert(y == crate::pathmap::offset_point(x, o[i]));
        assert(y.x == x.x + o[i].0 && y.y == x.y + o[i].1);
        let a = crate::point::dx(goal, x);
        let b = crate::point::dy(goal, x);
        let a2 = crate::point::dx(goal, y);
        let b2 = crate::point::dy(goal, y);
        match adj {
            Adjacency::Cardinal => {
                assert(i < 4);
            },
            Adjacency::Octile { cardinal_cost, diagonal_cost } => {
                lemma_octile_step(a, b, a2, b2, cardinal_cost as int, diagonal_cost as int);
                if !(x.x == y.x || x.y == y.y) {
                    assert(a != a2 && b != b2);
                }
            },
        }
    }
}

/// The estimate a search adds to a cost when ordering its frontier.
pub open spec fn guide(map: PathMap2d, goal: Point, guided: bool, p: Point) -> int {
    if guided {
        heuristic(map.adj(), goal, p)
    } else {
        0
    }
}

/// The cost of the first `j + 1` cells of a walk.
pub open spec fn prefix_cost(adj: Adjacency, p: Seq<Point>, j: int) -> int {
    walk_cost(adj, p.take(j + 1))
}

proof fn lemma_prefix_step(adj: Adjacency, p: Seq<Point>, j: int)
    requires
        0 <= j < p.len() - 1,
    ensures
        prefix_cost(adj, p, j + 1) == prefix_cost(adj, p, j) + step_cost(adj, p[j], p[j + 1]),
{
    assert(p.take(j + 2).drop_last() =~= p.take(j + 1));
}

proof fn lemma_prefix_all(adj: Adjacency, p: Seq<Point>)
    requires
        p.len() >= 1,
    ensures
        prefix_cost(adj, p, p.len() - 1) == walk_cost(adj, p),
{
    assert(p.take(p.len() as int) =~= p);
}

/// Along a walk to `goal`, an estimate consistent over its steps is at most
/// the rest of the walk's cost plus the estimate at `goal`.
proof fn lemma_guide_suffix(map: PathMap2d, goal: Point, guided: bool, p: Seq<Point>, start: Point, j: int)
    requires
        is_walk(map, p, start, goal),
        !guided || consistent_toward(map, goal),
        crate::pathmap::steps_positive(map.adj()),
        map.in_bounds(start),
        0 <= j < p.len(),
    ensures
        guide(map, goal, guided, p[j]) <= walk_cost(map.adj(), p) - prefix_cost(map.adj(), p, j) + guide(
            map,
            goal,
            guided,
            goal,
        ),
    decreases p.len() - j,
{
    lemma_prefix_all(map.adj(), p);
    if j < p.len() - 1 {
        lemma_guide_suffix(map, goal, guided, p, start, j + 1);
        lemma_prefix_step(map.adj(), p, j);
        assert(map.is_exit(p[j], p[j + 1]));
        assert(step_cost(map.adj(), p[j], p[j + 1]) >= 1);
        if j > 0 {
            let i = j - 1;
            assert(map.is_exit(p[i], p[i + 1]));
        }
        assert(map.in_bounds(p[j]));
    }
}

/// When the search pops `goal` as the least frontier entry `(c, goal)`, no
/// walk from `root` to `goal` costs less than the cost recorded for `goal`.
proof fn lemma_popped_goal_optimal(
    map: PathMap2d,
    cs: Map<Point, i32>,
    f: Multiset<(i32, Point)>,
    root: Point,
    goal: Point,
    guided: bool,
    c: i32,
    p: Seq<Point>,
    j: int,
)
    requires
        !guided || consistent_toward(map, goal),
        crate::pathmap::steps_positive(map.adj()),
        map.in_bounds(root),
        is_walk(map, p, root, goal),
        0 <= j < p.len(),
        cs.contains_key(p[j]),
        cs[p[j]] <= prefix_cost(map.adj(), p, j),
        cs.contains_key(goal),
        cs[goal] <= c,
        crate::min_heap::is_least(f, (c, goal)),
        forall|v: Point| #[trigger] cs.contains_key(v) ==> (exists|e: i32| #[trigger] f.contains((e, v)) && e <= cs[v] + guide(map, goal, guided, v))
            || (forall|q: Point| #[trigger] map.is_exit(v, q) ==> cs.contains_key(q) && cs[q] <= cs[v] + step_cost(map.adj(), v, q)),
    ensures
        cs[goal] <= walk_cost(map.adj(), p),
    decreases p.len() - j,
{
    lemma_prefix_all(map.adj(), p);
    let v = p[j];
    if j == p.len() - 1 {
    } else if exists|e: i32| #[trigger] f.contains((e, v)) && e <= cs[v] + guide(map, goal, guided, v) {
        let e = choose|e: i32| #[trigger] f.contains((e, v)) && e <= cs[v] + guide(map, goal, guided, v);
        assert(crate::min_heap::entry_le((c, goal), (e, v)));
        lemma_guide_suffix(map, goal, guided, p, root, j);
        assert(guide(map, goal, guided, goal) == 0) by {
            if guided {
                assert(heuristic(map.adj(), goal, goal) == 0) by {
                    match map.adj() {
                        Adjacency::Cardinal => {},
                        Adjacency::Octile { cardinal_cost, diagonal_cost } => {
                            let cc = cardinal_cost as int;
                            let dd = diagonal_cost as int;
                            assert(crate::point::dx(goal, goal) == 0 && crate::point::dy(goal, goal) == 0);
                            assert(cc * 0 == 0 && dd * 0 == 0) by (nonlinear_arith);
                            assert(crate::point::octile(goal, goal, cc, dd) == 0);
                        },
                    }
                }
            }
        }
    } else {
        let q = p[j + 1];
        assert(map.is_exit(v, q));
        lemma_prefix_step(map.adj(), p, j);
        lemma_popped_goal_optimal(map, cs, f, root, goal, guided, c, p, j + 1);
    }
}

/// With parents that never cost more than the child's cost minus the step,
/// a chain of parents from `root` (of cost 0) to `q` costs at most the cost
/// recorded for `q`.
pub proof fn lemma_chain_cost_at_most(map: PathMap2d, cs: Map<Point, i32>, cf: Map<Point, Point>, p: Seq<Point>, root: Point, q: Point)
    requires
        cs.contains_key(root),
        cs[root] == 0,
        forall|n: Point| #[trigger] cf.contains_key(n) ==> cs.contains_key(n) && cs.contains_key(cf[n])
            && cs[cf[n]] + step_cost(map.adj(), cf[n], n) <= cs[n],
        is_chain(cf, p, root, q),
    ensures
        cs.contains_key(q),
        walk_cost(map.adj(), p) <= cs[q],
    decreases p.len(),
{
    if p.len() >= 2 {
        let k = p.len() - 2;
        let front = p.drop_last();
        assert(cf.contains_key(p[k + 1]) && cf[p[k + 1]] == p[k]);
        assert forall|i: int| 0 <= i < front.len() - 1 implies #[trigger] cf.contains_key(front[i + 1]) && cf[front[i + 1]] == front[i] by {
            assert(cf.contains_key(p[i + 1]) && cf[p[i + 1]] == p[i]);
        }
        lemma_chain_cost_at_most(map, cs, cf, front, root, p[k]);
    }
}

/// What a search from `root` leaves: `root` has cost 0 and no parent;
/// each parent is a cell the child is an exit of, and its cost plus the step
/// is at most the child's cost; every recorded cell leads back to `root`
/// through its parents.
pub open spec fn search_records(map: PathMap2d, cs: Map<Point, i32>, cf: Map<Point, Point>, root: Point) -> bool {
    &&& cs.contains_key(root)
    &&& cs[root] == 0
    &&& !cf.contains_key(root)
    &&& forall|n: Point| #[trigger]
        cf.contains_key(n) ==> cs.contains_key(n) && cs.contains_key(cf[n]) && map.is_exit(cf[n], n)
            && cs[cf[n]] + step_cost(map.adj(), cf[n], n) <= cs[n]
    &&& forall|p: Point| #[trigger] cs.contains_key(p) ==> reaches(cf, p, root)
}

/// When exits never lead more than one level deeper under `dep`, a walk
/// from `root` (level 0) reaches no cell deeper than its number of steps.
proof fn lemma_walk_depth(map: PathMap2d, vis: Set<Point>, dep: Map<Point, i32>, root: Point, w: Seq<Point>, q: Point, i: int)
    requires
        vis.contains(root),
        dep[root] == 0,
        forall|a: Point, b: Point| #[trigger] vis.contains(a) && #[trigger] map.is_exit(a, b) ==> vis.contains(b)
            && dep[b] <= dep[a] + 1,
        is_walk(map, w, root, q),
        0 <= i < w.len(),
    ensures
        vis.contains(w[i]),
        dep[w[i]] <= i,
    decreases i,
{
    if i > 0 {
        lemma_walk_depth(map, vis, dep, root, w, q, i - 1);
        let k = i - 1;
        assert(map.is_exit(w[k], w[k + 1]));
    }
}

/// When each parent is one level above its child under `dep`, a chain of
/// parents from `root` (level 0) to `q` has `dep[q]` steps.
proof fn lemma_chain_depth(cf: Map<Point, Point>, dep: Map<Point, i32>, p: Seq<Point>, root: Point, q: Point)
    requires
        dep[root] == 0,
        forall|n: Point| #[trigger] cf.contains_key(n) ==> dep[n] == dep[cf[n]] + 1,
        is_chain(cf, p, root, q),
    ensures
        dep[q] == p.len() - 1,
    decreases p.len(),
{
    if p.len() >= 2 {
        let k = p.len() - 2;
        let front = p.drop_last();
        assert(cf.contains_key(p[k + 1]) && cf[p[k + 1]] == p[k]);
        assert forall|i: int| 0 <= i < front.len() - 1 implies #[trigger] cf.contains_key(front[i + 1]) && cf[front[i + 1]] == front[i] by {
            assert(cf.contains_key(p[i + 1]) && cf[p[i + 1]] == p[i]);
        }
        lemma_chain_depth(cf, dep, front, root, p[k]);
    }
}

/// Reusable search state: a frontier, the recorded parents and costs, and the
/// last path built.
pub struct Pathfinder {
    frontier: MinHeap,
    came_from: PointMap<Point>,
    costs: PointMap<i32>,
    path: Vec<Point>,
}

impl Default for Pathfinder {
    fn default() -> (r: Pathfinder)
        ensures
            r.wf(),
            r.parents() == Map::<Point, Point>::empty(),
            r.cost_map().dom() == Set::<Point>::empty(),
            r.spec_path().len() == 0,
    {
        Pathfinder::new()
    }
}

impl Pathfinder {
    /// The parent recorded for each visited point.
    pub closed spec fn parents(&self) -> Map<Point, Point> {
        self.came_from@
    }

    /// The best cost recorded for each reached point.
    pub closed spec fn cost_map(&self) -> Map<Point, i32> {
        self.costs@
    }

    /// The last path built, from start to goal.
    pub closed spec fn spec_path(&self) -> Seq<Point> {
        self.path@
    }

    /// The frontier's entries.
    pub closed spec fn pending(&self) -> Multiset<(i32, Point)> {
        self.frontier@
    }

    pub closed spec fn wf(&self) -> bool {
        self.frontier.wf()
    }

    pub fn new() -> (r: Pathfinder)
        ensures
            r.wf(),
            r.parents() == Map::<Point, Point>::empty(),
            r.cost_map().dom() == Set::<Point>::empty(),
            r.spec_path().len() == 0,
    {
        let r = Pathfinder {
            frontier: MinHeap::new(),
            came_from: map_new(),
            costs: map_new(),
            path: Vec::new(),
        };
        proof {
            assert(r.came_from@ =~= Map::<Point, Point>::empty());
        }
        r
    }

    /// A pathfinder whose frontier and path start with room for `capacity`
    /// entries.
    pub fn with_capacity(capacity: usize) -> (r: Pathfinder)
        ensures
            r.wf(),
            r.parents() == Map::<Point, Point>::empty(),
            r.cost_map().dom() == Set::<Point>::empty(),
            r.spec_path().len() == 0,
    {
        let r = Pathfinder {
            frontier: MinHeap::with_capacity(capacity),
            came_from: map_new(),
            costs: map_new(),
            path: Vec::with_capacity(capacity / 4),
        };
        proof {
            assert(r.came_from@ =~= Map::<Point, Point>::empty());
        }
        r
    }

    /// Clear all search state.
    pub fn clear(&mut self)
        ensures
            final(self).wf(),
            final(self).parents() == Map::<Point, Point>::empty(),
            final(self).cost_map().dom() == Set::<Point>::empty(),
            final(self).spec_path().len() == 0,
            final(self).pending() == Multiset::<(i32, Point)>::empty(),
    {
        self.frontier.clear();
        self.came_from.clear();
        self.costs.clear();
        self.path.clear();
        proof {
            assert(self.costs@.dom() =~= Set::<Point>::empty());
        }
    }

    /// The last path built; empty when none was.
    pub fn path(&self) -> (r: &[Point])
        ensures
            r@ == self.spec_path(),
    {
        self.path.as_slice()
    }

    /// Every point with a recorded parent, each once, in no particular order.
    pub fn visited(&self) -> (r: Vec<Point>)
        ensures
            r@.to_set() == self.parents().dom(),
            r@.no_duplicates(),
    {
        map_keys(&self.came_from)
    }

    /// The recorded parents.
    pub fn came_from(&self) -> (r: &PointMap<Point>)
        ensures
            r@ == self.parents(),
    {
        &self.came_from
    }

    /// The recorded costs.
    pub fn costs(&self) -> (r: &PointMap<i32>)
        ensures
            r@ == self.cost_map(),
    {
        &self.costs
    }

    /// What holds of the search state while a cost-ordered search from
    /// `root` runs on `map`.
    spec fn search_inv(&self, map: PathMap2d, root: Point) -> bool {
        let cs = self.costs@;
        let cf = self.came_from@;
        let w = map.spec_width();
        let h = map.spec_height();
        let mm = max_step(map.adj());
        &&& self.frontier.wf()
        &&& cf.dom().finite()
        &&& cs.contains_key(root)
        &&& cs[root] == 0
        &&& forall|p: Point| #[trigger]
            cs.contains_key(p) ==> map.in_bounds(p) && 0 <= cs[p] <= mm * key_count(cs, w, h)
        &&& forall|e: (i32, Point)| #[trigger] self.frontier@.contains(e) ==> cs.contains_key(e.1)
        &&& forall|n: Point| #[trigger]
            cf.contains_key(n) ==> n != root && cs.contains_key(n) && cs.contains_key(cf[n])
                && map.is_exit(cf[n], n) && cs[cf[n]] < cs[n] && cs[cf[n]] + step_cost(map.adj(), cf[n], n)
                <= cs[n]
        &&& forall|p: Point| #[trigger] cs.contains_key(p) && p != root ==> cf.contains_key(p)
    }

    spec fn frontier_has(&self, p: Point) -> bool {
        exists|c: i32| #[trigger] self.frontier@.contains((c, p))
    }

    /// Every exit of `p` has a recorded cost.
    spec fn closed_at(&self, map: PathMap2d, p: Point) -> bool {
        forall|q: Point| #[trigger]
            map.is_exit(p, q) ==> self.costs@.contains_key(q) && self.costs@[q] <= self.costs@[p]
                + step_cost(map.adj(), p, q)
    }

    /// Every cell with a recorded cost either waits in the frontier or has
    /// all its exits recorded.
    spec fn open_or_closed(&self, map: PathMap2d, goal: Point, guided: bool) -> bool {
        forall|p: Point| #[trigger]
            self.costs@.contains_key(p) ==> self.frontier_open(map, goal, guided, p) || self.closed_at(
                map,
                p,
            )
    }

    /// `p` waits in the frontier with an entry no higher than its current
    /// cost plus estimate.
    spec fn frontier_open(&self, map: PathMap2d, goal: Point, guided: bool, p: Point) -> bool {
        exists|e: i32| #[trigger]
            self.frontier@.contains((e, p)) && e <= self.costs@[p] + guide(map, goal, guided, p)
    }

    /// No frontier entry is below its cell's cost plus estimate (the root's
    /// first entry carries no estimate).
    spec fn entries_bounded(&self, map: PathMap2d, root: Point, goal: Point, guided: bool) -> bool {
        forall|e: (i32, Point)| #[trigger]
            self.frontier@.contains(e) ==> e.0 >= self.costs@[e.1] + if e.1 == root {
                0
            } else {
                guide(map, goal, guided, e.1)
            }
    }

    /// With a consistent estimate, no walk from `root` to `goal` costs less
    /// than the cost recorded for `goal`.
    spec fn goal_optimal(&self, map: PathMap2d, root: Point, goal: Point, guided: bool) -> bool {
        (!guided || consistent_toward(map, goal)) ==> forall|p: Seq<Point>| #[trigger]
            is_walk(map, p, root, goal) ==> self.costs@[goal] <= walk_cost(map.adj(), p)
    }

    /// The second part of the search's termination measure.
    spec fn weight(&self, map: PathMap2d) -> int {
        9 * cost_sum(self.costs@, map.spec_width(), map.spec_height()) + self.frontier@.len()
    }

    spec fn count(&self, map: PathMap2d) -> int {
        key_count(self.costs@, map.spec_width(), map.spec_height())
    }

    /// Relax the step from `curr` (whose cost is `cc`) to its exit `next`.
    fn relax(
        &mut self,
        map: &PathMap2d,
        root: Point,
        goal: Point,
        curr: Point,
        cc: i32,
        next: Point,
        guided: bool,
    )
        requires
            map.wf(),
            search_fits(*map),
            map.in_bounds(goal),
            old(self).search_inv(*map, root),
            map.is_exit(curr, next),
            curr != next,
            old(self).costs@.contains_key(curr),
            old(self).costs@[curr] == cc,
            old(self).entries_bounded(*map, root, goal, guided),
        ensures
            final(self).search_inv(*map, root),
            final(self).entries_bounded(*map, root, goal, guided),
            final(self).count(*map) >= old(self).count(*map),
            final(self).count(*map) == old(self).count(*map) ==> final(self).weight(*map) <= old(
                self,
            ).weight(*map) - 8 || final(self).frontier@ == old(self).frontier@,
            final(self).count(*map) == old(self).count(*map) ==> final(self).weight(*map) <= old(
                self,
            ).weight(*map),
            final(self).path@ == old(self).path@,
            final(self).costs@.contains_key(next),
            final(self).costs@.contains_key(curr),
            final(self).costs@[curr] == cc,
            forall|p: Point| #[trigger] old(self).costs@.contains_key(p) ==> final(self).costs@.contains_key(p),
            forall|e: (i32, Point)| #[trigger] old(self).frontier@.contains(e) ==> final(self).frontier@.contains(e),
            forall|p: Point| #[trigger] final(self).costs@.contains_key(p) && !old(self).costs@.contains_key(p)
                ==> final(self).frontier_open(*map, goal, guided, p),
            forall|p: Point| #[trigger] old(self).costs@.contains_key(p) ==> final(self).costs@[p] <= old(
                self,
            ).costs@[p],
            forall|p: Point| #[trigger] old(self).costs@.contains_key(p) && final(self).costs@[p] != old(
                self,
            ).costs@[p] ==> final(self).frontier_open(*map, goal, guided, p),
            final(self).costs@[next] <= cc + step_cost(map.adj(), curr, next),
    {
        let ghost w = map.spec_width();
        let ghost h = map.spec_height();
        let ghost mm = max_step(map.adj());
        let ghost cs0 = self.costs@;
        let ghost cf0 = self.came_from@;
        let ghost f0 = self.frontier@;
        let ghost count0 = key_count(cs0, w, h);
        let ghost big = w * h + 3 * (w + h) + 1;
        proof {
            lemma_count_bound(cs0, w, h);
            lemma_heuristic_bounds(*map, goal, next);
            assert(mm * count0 <= mm * (w * h)) by (nonlinear_arith)
                requires
                    mm >= 1,
                    count0 <= w * h,
            ;
            assert(mm * (w * h) + mm + mm * (w + h) <= mm * big) by (nonlinear_arith)
                requires
                    mm >= 1,
                    big == w * h + 3 * (w + h) + 1,
                    w >= 0,
                    h >= 0,
            ;
            assert(1 <= step_cost(map.adj(), curr, next) <= mm);
        }
        let new_cost = cc + map.step(curr, next);
        let known = map_get(&self.costs, next);
        let better = match known {
            None => true,
            Some(k) => new_cost < k,
        };
        if better {
            let prio = if guided {
                new_cost + map.estimate(goal, next)
            } else {
                new_cost
            };
            map_insert(&mut self.costs, next, new_cost);
            self.frontier.insert(next, prio);
            map_insert(&mut self.came_from, next, curr);
            proof {
                let cs1 = self.costs@;
                let cf1 = self.came_from@;
                lemma_count_insert(cs0, next, new_cost, w, h);
                let count1 = key_count(cs1, w, h);
                assert forall|p: Point| p != next implies #[trigger] cost_fn(cs0)(p) == cost_fn(cs1)(p) by {}
                lemma_grid_update(cost_fn(cs0), cost_fn(cs1), w, h, next);
                assert(in_grid(w, h, next));
                assert(mm * count0 <= mm * count1) by (nonlinear_arith)
                    requires
                        mm >= 1,
                        count0 <= count1,
                ;
                if !cs0.contains_key(next) {
                    assert(count1 == count0 + 1);
                    assert(mm * count1 == mm * count0 + mm) by (nonlinear_arith)
                        requires
                            count1 == count0 + 1,
                    ;
                }
                assert(next != root);
                assert forall|p: Point| #[trigger] cs1.contains_key(p) implies map.in_bounds(p) && 0
                    <= cs1[p] <= mm * count1 by {
                    if p != next {
                        assert(cs0.contains_key(p));
                    }
                }
                assert forall|n: Point| #[trigger] cf1.contains_key(n) implies n != root
                    && cs1.contains_key(n) && cs1.contains_key(cf1[n]) && map.is_exit(cf1[n], n)
                    && cs1[cf1[n]] < cs1[n] && cs1[cf1[n]] + step_cost(map.adj(), cf1[n], n) <= cs1[n] by {
                    if n != next {
                        assert(cf0.contains_key(n));
                        if cf0[n] == next {
                            assert(cs0.contains_key(next));
                        }
                    }
                }
                assert forall|e: (i32, Point)| #[trigger] self.frontier@.contains(e) implies cs1.contains_key(e.1) by {
                    if e != (prio, next) {
                        assert(f0.contains(e));
                    }
                }
                assert forall|p: Point| #[trigger] cs1.contains_key(p) && p != root implies cf1.contains_key(p) by {
                    if p != next {
                        assert(cs0.contains_key(p));
                    }
                }
                assert(self.frontier@.contains((prio, next)));
                assert(prio == cs1[next] + guide(*map, goal, guided, next));
                assert forall|e: (i32, Point)| #[trigger] self.frontier@.contains(e) implies e.0 >= cs1[e.1] + if e.1 == root {
                    0
                } else {
                    guide(*map, goal, guided, e.1)
                } by {
                    if e != (prio, next) {
                        assert(f0.contains(e));
                        assert(cs0.contains_key(e.1));
                    }
                }
            }
        }
    }

    /// Expand the cells of the frontier in cost order from `root`, recording
    /// costs and parents. With `stop` set the search ends when `goal` is
    /// popped; with `guided` set the frontier is ordered by cost plus the
    /// heuristic distance to `goal`.
    fn search(&mut self, map: &PathMap2d, root: Point, goal: Point, stop: bool, guided: bool)
        requires
            map.wf(),
            search_fits(*map),
            map.in_bounds(root),
            map.in_bounds(goal),
        ensures
            final(self).search_inv(*map, root),
            final(self).spec_path().len() == 0,
            (stop && final(self).costs@.contains_key(goal) && final(self).goal_optimal(
                *map,
                root,
                goal,
                guided,
            )) || forall|p: Point| #[trigger]
                final(self).costs@.contains_key(p) ==> final(self).closed_at(*map, p),
    {
        self.clear();
        self.frontier.insert(root, 0);
        map_insert(&mut self.costs, root, 0);
        let ghost w = map.spec_width();
        let ghost h = map.spec_height();
        let ghost mm = max_step(map.adj());
        proof {
            let cs = self.costs@;
            assert(cs == Map::<Point, i32>::empty().insert(root, 0));
            lemma_count_insert(Map::<Point, i32>::empty(), root, 0, w, h);
            assert(key_count(Map::<Point, i32>::empty(), w, h) == 0) by {
                lemma_grid_bounds(
                    crate::grid_sum::indicator(Map::<Point, i32>::empty()),
                    w,
                    h,
                    0,
                );
                assert(0 * (w * h) == 0);
            }
            assert(mm >= 1);
            assert forall|p: Point| #[trigger] cs.contains_key(p) implies map.in_bounds(p) && 0 <= cs[p]
                <= mm * key_count(cs, w, h) by {}
            assert forall|e: (i32, Point)| #[trigger] self.frontier@.contains(e) implies cs.contains_key(e.1) by {
                assert(e == (0i32, root));
            }
            assert(self.frontier@.contains((0i32, root)));
            lemma_heuristic_bounds(*map, goal, root);
            assert forall|p: Point| #[trigger] cs.contains_key(p) implies self.frontier_open(*map, goal, guided, p) || self.closed_at(*map, p) by {
                assert(p == root);
                assert(self.frontier@.contains((0i32, root)));
            }
        }
        loop
            invariant_except_break
                self.open_or_closed(*map, goal, guided),
            invariant
                map.wf(),
                search_fits(*map),
                map.in_bounds(root),
                map.in_bounds(goal),
                self.search_inv(*map, root),
                self.entries_bounded(*map, root, goal, guided),
                self.path@.len() == 0,
                w == map.spec_width(),
                h == map.spec_height(),
                mm == max_step(map.adj()),
            ensures
                self.search_inv(*map, root),
                self.path@.len() == 0,
                (stop && self.costs@.contains_key(goal) && self.goal_optimal(*map, root, goal, guided))
                    || forall|p: Point| #[trigger] self.costs@.contains_key(p) ==> self.closed_at(*map, p),
            decreases w * h - self.count(*map), self.weight(*map),
        {
            proof {
                let cs = self.costs@;
                lemma_count_bound(cs, w, h);
                assert(mm * key_count(cs, w, h) <= mm * (w * h)) by (nonlinear_arith)
                    requires
                        mm >= 1,
                        key_count(cs, w, h) <= w * h,
                ;
                assert forall|p: Point| 0 <= #[trigger] cost_fn(cs)(p) <= mm * (w * h) by {
                    if cs.contains_key(p) {
                    }
                }
                lemma_grid_bounds(cost_fn(cs), w, h, mm * (w * h));
            }
            let ghost count_b = self.count(*map);
            let ghost weight_b = self.weight(*map);
            let ghost f_before = self.frontier@;
            let popped = self.frontier.pop();
            let curr = match popped {
                None => {
                    proof {
                        assert forall|p: Point| #[trigger] self.costs@.contains_key(p) implies self.closed_at(*map, p) by {
                            if self.frontier_open(*map, goal, guided, p) {
                                let c = choose|c: i32| #[trigger] self.frontier@.contains((c, p)) && c <= self.costs@[p] + guide(*map, goal, guided, p);
                            }
                        }
                    }
                    break;
                },
                Some(c) => c,
            };
            let ghost f_after = self.frontier@;
            let ghost c = choose|c: i32| #![trigger crate::min_heap::is_least(f_before, (c, curr))]
                crate::min_heap::is_least(f_before, (c, curr)) && f_after == f_before.remove((c, curr));
            proof {
                assert(f_before.contains((c, curr)));
                assert(f_after.len() == f_before.len() - 1);
                assert forall|e: (i32, Point)| #[trigger] f_after.contains(e) implies self.costs@.contains_key(e.1) && e.0 >= self.costs@[e.1] + if e.1 == root {
                    0
                } else {
                    guide(*map, goal, guided, e.1)
                } by {
                    assert(f_before.contains(e));
                }
                assert forall|p: Point| #[trigger] self.costs@.contains_key(p) && p != curr implies self.frontier_open(*map, goal, guided, p) || self.closed_at(*map, p) by {
                    if !self.closed_at(*map, p) {
                        let d = choose|d: i32| #[trigger] f_before.contains((d, p)) && d <= self.costs@[p] + guide(*map, goal, guided, p);
                        assert((d, p) != (c, curr));
                        assert(f_after.contains((d, p)));
                    }
                }
            }
            if stop && curr == goal {
                proof {
                    let cs = self.costs@;
                    lemma_heuristic_bounds(*map, goal, goal);
                    assert(cs[goal] <= c);
                    if !guided || consistent_toward(*map, goal) {
                        assert forall|p: Seq<Point>| #[trigger] is_walk(*map, p, root, goal) implies cs[goal] <= walk_cost(map.adj(), p) by {
                            assert(p.take(1).len() == 1);
                            assert(prefix_cost(map.adj(), p, 0) == 0);
                            lemma_popped_goal_optimal(*map, cs, f_before, root, goal, guided, c, p, 0);
                        }
                    }
                }
                break;
            }
            let ghost c0 = self.count(*map);
            let ghost wt0 = self.weight(*map);
            let cc = map_get(&self.costs, curr).unwrap();
            let exits = map.exits_of(curr);
            let n = exits_len(&exits);
            let mut j: usize = 0;
            while j < n
                invariant
                    map.wf(),
                    search_fits(*map),
                    map.in_bounds(goal),
                    self.search_inv(*map, root),
                    self.path@.len() == 0,
                    forall|q: Point| #[trigger] exit_items(exits).contains(q) ==> map.is_exit(curr, q) && q != curr,
                    n == exit_items(exits).len(),
                    j <= n,
                    self.costs@.contains_key(curr),
                    self.costs@[curr] == cc,
                    forall|p: Point| #[trigger] self.costs@.contains_key(p) && p != curr ==> self.frontier_open(*map, goal, guided, p) || self.closed_at(*map, p),
                    self.entries_bounded(*map, root, goal, guided),
                    forall|k: int| 0 <= k < j ==> self.costs@.contains_key(#[trigger] exit_items(exits)[k])
                        && self.costs@[exit_items(exits)[k]] <= cc + step_cost(map.adj(), curr, exit_items(exits)[k]),
                    self.count(*map) >= c0,
                    self.count(*map) == c0 ==> self.weight(*map) <= wt0,
                decreases n - j,
            {
                let next = exits_get(&exits, j);
                proof {
                    assert(exit_items(exits).contains(next));
                }
                let ghost before = *self;
                self.relax(map, root, goal, curr, cc, next, guided);
                proof {
                    assert forall|p: Point| #[trigger] self.costs@.contains_key(p) && p != curr implies self.frontier_open(*map, goal, guided, p) || self.closed_at(*map, p) by {
                        if before.costs@.contains_key(p) {
                            if self.costs@[p] != before.costs@[p] {
                            } else if before.frontier_open(*map, goal, guided, p) {
                                let d = choose|d: i32| #[trigger] before.frontier@.contains((d, p)) && d <= before.costs@[p] + guide(*map, goal, guided, p);
                                assert(self.frontier@.contains((d, p)));
                            } else if self.costs@[p] == before.costs@[p] {
                                assert forall|q: Point| #[trigger] map.is_exit(p, q) implies self.costs@.contains_key(q)
                                    && self.costs@[q] <= self.costs@[p] + step_cost(map.adj(), p, q) by {
                                    assert(before.closed_at(*map, p));
                                    assert(before.costs@.contains_key(q));
                                }
                            }
                        }
                    }
                    assert forall|k: int| 0 <= k < j + 1 implies self.costs@.contains_key(#[trigger] exit_items(exits)[k])
                        && self.costs@[exit_items(exits)[k]] <= cc + step_cost(map.adj(), curr, exit_items(exits)[k]) by {
                        if k < j {
                            assert(before.costs@.contains_key(exit_items(exits)[k]));
                        }
                    }
                }
                j += 1;
            }
            proof {
                assert forall|q: Point| #[trigger] map.is_exit(curr, q) implies self.costs@.contains_key(q)
                    && self.costs@[q] <= self.costs@[curr] + step_cost(map.adj(), curr, q) by {
                    assert(exit_items(exits).contains(q));
                    let k = choose|k: int| 0 <= k < exit_items(exits).len() && #[trigger] exit_items(exits)[k] == q;
                }
                assert(self.closed_at(*map, curr));
            }
            proof {
                let cs = self.costs@;
                assert(c0 == count_b);
                assert(wt0 == weight_b - 1);
                lemma_count_bound(cs, w, h);
                assert(mm * key_count(cs, w, h) <= mm * (w * h)) by (nonlinear_arith)
                    requires
                        mm >= 1,
                        key_count(cs, w, h) <= w * h,
                ;
                assert forall|p: Point| 0 <= #[trigger] cost_fn(cs)(p) <= mm * (w * h) by {
                    if cs.contains_key(p) {
                    }
                }
                lemma_grid_bounds(cost_fn(cs), w, h, mm * (w * h));
            }
        }
    }

    /// Find a path from `start` to `goal` with A*. Returns the path, from
    /// `start` to `goal`, or `None` when no walk over exits joins them.
    /// When the heuristic is consistent (see `lemma_heuristic_consistent`)
    /// no walk between them costs less than the path.
    pub fn astar(&mut self, map: &PathMap2d, start: [i32; 2], goal: [i32; 2]) -> (r: Option<Vec<Point>>)
        requires
            map.wf(),
            search_fits(*map),
            map.in_bounds(Point::spec_from(start)),
            map.in_bounds(Point::spec_from(goal)),
        ensures
            final(self).wf(),
            r is Some <==> connected(*map, Point::spec_from(start), Point::spec_from(goal)),
            r is Some ==> is_walk(*map, r->0@, Point::spec_from(start), Point::spec_from(goal))
                && final(self).spec_path() == r->0@,
            r is None ==> final(self).spec_path().len() == 0,
            r is Some && consistent_toward(*map, Point::spec_from(goal)) ==> forall|p: Seq<Point>| #[trigger]
                is_walk(*map, p, Point::spec_from(start), Point::spec_from(goal)) ==> walk_cost(
                    map.adj(),
                    r->0@,
                ) <= walk_cost(map.adj(), p),
            search_records(*map, final(self).cost_map(), final(self).parents(), Point::spec_from(start)),
    {
        let s = Point::from_array(start);
        let g = Point::from_array(goal);
        self.search(map, s, g, true, true);
        proof {
            self.lemma_search_done(*map, s, g);
        }
        let r = self.trace_path(s, g);
        proof {
            if r is Some {
                let p = r->0@;
                let cf = self.came_from@;
                assert forall|i: int| 0 <= i < p.len() - 1 implies #[trigger] map.is_exit(p[i], p[i + 1]) by {
                    assert(cf.contains_key(p[i + 1]) && cf[p[i + 1]] == p[i]);
                }
                assert(is_walk(*map, p, s, g));
                let cs = self.costs@;
                lemma_chain_cost_at_most(*map, cs, cf, p, s, g);
                if consistent_toward(*map, g) {
                    assert forall|w: Seq<Point>| #[trigger] is_walk(*map, w, s, g) implies walk_cost(map.adj(), p) <= walk_cost(map.adj(), w) by {
                        if !self.goal_optimal(*map, s, g, true) {
                            assert(costs_settled(*map, cs)) by {
                                assert forall|a: Point, b: Point| #[trigger] cs.contains_key(a) && #[trigger] map.is_exit(a, b)
                                    implies cs.contains_key(b) && cs[b] <= cs[a] + step_cost(map.adj(), a, b) by {
                                    assert(self.closed_at(*map, a));
                                }
                            }
                            lemma_costs_at_most_walks(*map, cs, s, w, g);
                        }
                    }
                }
            }
        }
        r
    }

    /// After a search from `root`: parents lead every recorded cell back to
    /// `root`, and a `goal` joined to `root` by a walk is recorded.
    proof fn lemma_search_done(&self, map: PathMap2d, root: Point, goal: Point)
        requires
            map.wf(),
            self.search_inv(map, root),
            self.costs@.contains_key(goal) || forall|p: Point| #[trigger]
                self.costs@.contains_key(p) ==> self.closed_at(map, p),
        ensures
            parents_descend(self.costs@, self.came_from@, root),
            forall|p: Point| #[trigger] self.costs@.contains_key(p) ==> reaches(self.came_from@, p, root),
            search_records(map, self.costs@, self.came_from@, root),
            connected(map, root, goal) ==> self.costs@.contains_key(goal),
            connected(map, root, goal) ==> reaches(self.came_from@, goal, root),
            (forall|p: Point| #[trigger] self.costs@.contains_key(p) ==> self.closed_at(map, p))
                ==> forall|q: Point| #[trigger] connected(map, root, q) ==> self.costs@.contains_key(q),
    {
        let cs = self.costs@;
        let cf = self.came_from@;
        assert(parents_descend(cs, cf, root));
        assert forall|p: Point| #[trigger] cs.contains_key(p) implies reaches(cf, p, root) by {
            lemma_reaches_root(cs, cf, root, p);
        }
        if connected(map, root, goal) && !cs.contains_key(goal) {
            let w = choose|w: Seq<Point>| #[trigger] is_walk(map, w, root, goal);
            assert forall|a: Point, b: Point| #[trigger] cs.dom().contains(a) && #[trigger] map.is_exit(a, b) implies cs.dom().contains(b) by {
                assert(self.closed_at(map, a));
            }
            lemma_walk_recorded(map, cs.dom(), root, w, goal);
        }
        if forall|p: Point| #[trigger] self.costs@.contains_key(p) ==> self.closed_at(map, p) {
            assert forall|q: Point| #[trigger] connected(map, root, q) implies cs.contains_key(q) by {
                let w = choose|w: Seq<Point>| #[trigger] is_walk(map, w, root, q);
                assert forall|a: Point, b: Point| #[trigger] cs.dom().contains(a) && #[trigger] map.is_exit(a, b) implies cs.dom().contains(b) by {
                    assert(self.closed_at(map, a));
                }
                lemma_walk_recorded(map, cs.dom(), root, w, q);
            }
        }
    }

    /// Run Dijkstra's algorithm from `start`, or from `goal` when no start
    /// is given. With a start the search ends once `goal` is expanded;
    /// without one it records every cell a walk from `goal` reaches.
    /// Afterwards `build_path` gives paths to the search's root.
    pub fn dijkstra(&mut self, map: &PathMap2d, start: Option<[i32; 2]>, goal: [i32; 2])
        requires
            map.wf(),
            search_fits(*map),
            start is Some ==> map.in_bounds(Point::spec_from(start->0)),
            map.in_bounds(Point::spec_from(goal)),
        ensures
            final(self).wf(),
            final(self).spec_path().len() == 0,
            final(self).cost_map().contains_key(search_root(start, goal)),
            final(self).cost_map()[search_root(start, goal)] == 0,
            forall|n: Point| #[trigger] final(self).parents().contains_key(n) ==> map.is_exit(
                final(self).parents()[n],
                n,
            ),
            forall|p: Point| #[trigger] final(self).cost_map().contains_key(p) ==> reaches(
                final(self).parents(),
                p,
                search_root(start, goal),
            ),
            start is None ==> forall|q: Point| #[trigger]
                connected(*map, search_root(start, goal), q) ==> final(self).cost_map().contains_key(q),
            connected(*map, search_root(start, goal), Point::spec_from(goal))
                ==> final(self).cost_map().contains_key(Point::spec_from(goal)),
            start is None ==> costs_settled(*map, final(self).cost_map()),
            search_records(*map, final(self).cost_map(), final(self).parents(), search_root(start, goal)),
            final(self).cost_map().contains_key(Point::spec_from(goal)) ==> forall|p: Seq<Point>| #[trigger]
                is_chain(final(self).parents(), p, search_root(start, goal), Point::spec_from(goal))
                    ==> walk_cost(map.adj(), p) == final(self).cost_map()[Point::spec_from(goal)],
            final(self).cost_map().contains_key(Point::spec_from(goal)) ==> forall|p: Seq<Point>| #[trigger]
                is_walk(*map, p, search_root(start, goal), Point::spec_from(goal)) ==> final(self).cost_map()[Point::spec_from(goal)]
                    <= walk_cost(map.adj(), p),
            start is None ==> parents_exact(*map, final(self).cost_map(), final(self).parents()),
    {
        let g = Point::from_array(goal);
        let (root, stop) = match start {
            Some(s) => (Point::from_array(s), true),
            None => (g, false),
        };
        self.search(map, root, g, stop, false);
        proof {
            self.lemma_search_done(*map, root, g);
            let cs0 = self.costs@;
            let cf0 = self.came_from@;
            if cs0.contains_key(g) && !(stop && self.goal_optimal(*map, root, g, false)) {
                assert(costs_settled(*map, cs0)) by {
                    assert forall|a: Point, b: Point| #[trigger] cs0.contains_key(a) && #[trigger] map.is_exit(a, b)
                        implies cs0.contains_key(b) && cs0[b] <= cs0[a] + step_cost(map.adj(), a, b) by {
                        assert(self.closed_at(*map, a));
                    }
                }
                assert forall|p: Seq<Point>| #[trigger] is_walk(*map, p, root, g) implies cs0[g] <= walk_cost(map.adj(), p) by {
                    lemma_costs_at_most_walks(*map, cs0, root, p, g);
                }
            }
            if cs0.contains_key(g) {
                assert forall|p: Seq<Point>| #[trigger] is_chain(cf0, p, root, g) implies walk_cost(map.adj(), p) == cs0[g] by {
                    lemma_chain_cost_at_most(*map, cs0, cf0, p, root, g);
                    assert forall|i: int| 0 <= i < p.len() - 1 implies #[trigger] map.is_exit(p[i], p[i + 1]) by {
                        assert(cf0.contains_key(p[i + 1]) && cf0[p[i + 1]] == p[i]);
                    }
                    assert(is_walk(*map, p, root, g));
                }
            }
            if !stop {
                let cs = self.costs@;
                let cf = self.came_from@;
                assert forall|a: Point, b: Point| #[trigger] cs.contains_key(a) && #[trigger] map.is_exit(a, b)
                    implies cs.contains_key(b) && cs[b] <= cs[a] + step_cost(map.adj(), a, b) by {
                    assert(self.closed_at(*map, a));
                }
                assert forall|n: Point| #[trigger] cf.contains_key(n) implies cs.contains_key(n) && cs.contains_key(cf[n])
                    && cs[n] == cs[cf[n]] + step_cost(map.adj(), cf[n], n) by {
                    assert(self.closed_at(*map, cf[n]));
                    assert(map.is_exit(cf[n], n));
                }
            }
        }
    }

    /// The breadth-first search has visited `p`.
    spec fn seen(&self, root: Point, p: Point) -> bool {
        p == root || self.came_from@.contains_key(p)
    }

    spec fn bfs_inv(&self, map: PathMap2d, root: Point, order: int) -> bool {
        let cf = self.came_from@;
        &&& self.frontier.wf()
        &&& cf.dom().finite()
        &&& forall|n: Point| #[trigger] cf.contains_key(n) ==> map.is_exit(cf[n], n)
        &&& forall|e: (i32, Point)| #[trigger]
            self.frontier@.contains(e) ==> map.in_bounds(e.1) && self.seen(root, e.1)
        &&& order == key_count(cf, map.spec_width(), map.spec_height())
        &&& self.path@.len() == 0
        &&& self.costs@.dom() == Set::<Point>::empty()
    }

    /// Every visited cell either waits in the frontier or has all its exits
    /// visited.
    spec fn bfs_open_or_closed(&self, map: PathMap2d, root: Point) -> bool {
        forall|p: Point| #[trigger]
            self.seen(root, p) ==> self.frontier_has(p) || forall|q: Point| #[trigger]
                map.is_exit(p, q) ==> self.seen(root, q)
    }

    /// Breadth-first search from `start`, or from `goal` when no start is
    /// given, visiting cells in the order they were discovered and recording
    /// the parent of each. With a start the search ends once `goal` is
    /// expanded; without one it visits every cell a walk from `goal`
    /// reaches. Afterwards `build_path` gives paths to the search's root.
    pub fn bfs(&mut self, map: &PathMap2d, start: Option<[i32; 2]>, goal: [i32; 2])
        requires
            map.wf(),
            map.spec_width() * map.spec_height() < i32::MAX,
            start is Some ==> map.in_bounds(Point::spec_from(start->0)),
            map.in_bounds(Point::spec_from(goal)),
        ensures
            final(self).wf(),
            final(self).spec_path().len() == 0,
            final(self).cost_map().dom() == Set::<Point>::empty(),
            forall|n: Point| #[trigger] final(self).parents().contains_key(n) ==> map.is_exit(
                final(self).parents()[n],
                n,
            ),
            start is None ==> forall|q: Point| #[trigger]
                connected(*map, search_root(start, goal), q) ==> q == search_root(start, goal)
                    || final(self).parents().contains_key(q),
            connected(*map, search_root(start, goal), Point::spec_from(goal)) ==> Point::spec_from(goal)
                == search_root(start, goal) || final(self).parents().contains_key(Point::spec_from(goal)),
            forall|q: Point| #[trigger] final(self).parents().contains_key(q) ==> reaches(
                final(self).parents(),
                q,
                search_root(start, goal),
            ),
            !final(self).parents().contains_key(search_root(start, goal)),
            start is None ==> forall|p: Seq<Point>, w: Seq<Point>, q: Point|
                #![trigger is_chain(final(self).parents(), p, search_root(start, goal), q), is_walk(*map, w, search_root(start, goal), q)]
                is_chain(final(self).parents(), p, search_root(start, goal), q) && is_walk(
                    *map,
                    w,
                    search_root(start, goal),
                    q,
                ) ==> p.len() <= w.len(),
    {
        self.clear();
        let g = Point::from_array(goal);
        let (root, stop) = match start {
            Some(s) => (Point::from_array(s), true),
            None => (g, false),
        };
        self.frontier.insert(root, 0);
        let mut order: i32 = 0;
        let ghost mut ord: Map<Point, i32> = Map::<Point, i32>::empty().insert(root, 0);
        let ghost mut dmin: int = 0;
        let ghost w = map.spec_width();
        let ghost h = map.spec_height();
        proof {
            assert(self.came_from@ == Map::<Point, Point>::empty());
            lemma_grid_bounds(crate::grid_sum::indicator(Map::<Point, Point>::empty()), w, h, 0);
            assert(0 * (w * h) == 0);
            assert(self.frontier@.contains((0i32, root)));
            assert forall|e: (i32, Point)| #[trigger] self.frontier@.contains(e) implies map.in_bounds(e.1) && self.seen(root, e.1) by {
                assert(e == (0i32, root));
            }
            assert forall|p: Point| #[trigger] self.seen(root, p) implies self.frontier_has(p) || forall|q: Point| #[trigger]
                map.is_exit(p, q) ==> self.seen(root, q) by {
                assert(p == root);
            }
        }
        proof {
            assert forall|e1: (i32, Point), e2: (i32, Point)| #[trigger] self.frontier@.contains(e1) && #[trigger] self.frontier@.contains(e2)
                && e1.0 == e2.0 implies e1.1 == e2.1 by {
                assert(e1 == (0i32, root) && e2 == (0i32, root));
            }
            assert(self.layered(root, ord, dmin, order as int));
            assert forall|p: Point| #[trigger] self.seen(root, p) implies self.frontier_has(p) || (ord[p] <= dmin && forall|q: Point| #[trigger]
                map.is_exit(p, q) ==> self.seen(root, q) && ord[q] <= ord[p] + 1) by {
                assert(p == root);
            }
        }
        loop
            invariant_except_break
                self.bfs_open_or_closed(*map, root),
                self.layers_closed(*map, root, ord, dmin),
            invariant
                self.layered(root, ord, dmin, order as int),
                0 <= dmin,
                ord.contains_key(root) && ord[root] == 0,
                map.wf(),
                map.in_bounds(root),
                self.bfs_inv(*map, root, order as int),
                w == map.spec_width(),
                h == map.spec_height(),
                w * h < i32::MAX,
                parents_descend(ord, self.came_from@, root),
                forall|p: Point| #[trigger] ord.contains_key(p) <==> self.seen(root, p),
                forall|p: Point| #[trigger] ord.contains_key(p) ==> ord[p] <= order,
                !self.came_from@.contains_key(root),
                forall|n: Point| #[trigger] self.came_from@.contains_key(n) ==> ord[n] == ord[self.came_from@[n]] + 1,
            ensures
                !self.came_from@.contains_key(root),
                forall|n: Point| #[trigger] self.came_from@.contains_key(n) ==> ord[n] == ord[self.came_from@[n]] + 1,
                forall|p: Point| #[trigger] ord.contains_key(p) <==> self.seen(root, p),
                ord.contains_key(root) && ord[root] == 0,
                !stop ==> forall|p: Point| #[trigger] self.seen(root, p) ==> forall|q: Point| #[trigger]
                    map.is_exit(p, q) ==> self.seen(root, q) && ord[q] <= ord[p] + 1,
                self.bfs_inv(*map, root, order as int),
                parents_descend(ord, self.came_from@, root),
                (stop && self.seen(root, g)) || forall|p: Point| #[trigger] self.seen(root, p)
                    ==> forall|q: Point| #[trigger] map.is_exit(p, q) ==> self.seen(root, q),
            decreases w * h - self.visited_count(*map), self.frontier@.len(),
        {
            proof {
                lemma_count_bound(self.came_from@, w, h);
            }
            let ghost f_before = self.frontier@;
            let ghost s0 = *self;
            let popped = self.frontier.pop();
            let curr = match popped {
                None => {
                    proof {
                        assert forall|p: Point| #[trigger] self.seen(root, p) implies forall|q: Point| #[trigger]
                            map.is_exit(p, q) ==> self.seen(root, q) by {
                            assert(s0.seen(root, p));
                            if s0.frontier_has(p) {
                                let c = choose|c: i32| #[trigger] s0.frontier@.contains((c, p));
                            }
                            assert forall|q: Point| #[trigger] map.is_exit(p, q) implies self.seen(root, q) by {
                                assert(s0.seen(root, q));
                            }
                        }
                        assert forall|p: Point| #[trigger] self.seen(root, p) implies forall|q: Point| #[trigger]
                            map.is_exit(p, q) ==> self.seen(root, q) && ord[q] <= ord[p] + 1 by {
                            assert(s0.seen(root, p));
                            if s0.frontier_has(p) {
                                let c = choose|c: i32| #[trigger] s0.frontier@.contains((c, p));
                            }
                            assert forall|q: Point| #[trigger] map.is_exit(p, q) implies self.seen(root, q) && ord[q] <= ord[p] + 1 by {
                                assert(s0.seen(root, q));
                            }
                        }
                    }
                    break;
                },
                Some(c) => c,
            };
            let ghost f_after = self.frontier@;
            proof {
                let c = choose|c: i32| #![trigger crate::min_heap::is_least(f_before, (c, curr))]
                    crate::min_heap::is_least(f_before, (c, curr)) && f_after == f_before.remove(
                        (c, curr),
                    );
                assert(f_before.contains((c, curr)));
                assert(f_after.len() == f_before.len() - 1);
                assert forall|e: (i32, Point)| #[trigger] f_after.contains(e) implies map.in_bounds(e.1) && self.seen(root, e.1) by {
                    assert(f_before.contains(e));
                }
                assert forall|p: Point| #[trigger] self.seen(root, p) && p != curr implies self.frontier_has(p) || forall|q: Point| #[trigger]
                    map.is_exit(p, q) ==> self.seen(root, q) by {
                    assert(s0.seen(root, p));
                    if s0.frontier_has(p) {
                        let d = choose|d: i32| #[trigger] f_before.contains((d, p));
                        assert((d, p) != (c, curr));
                        assert(f_after.contains((d, p)));
                    } else {
                        assert forall|q: Point| #[trigger] map.is_exit(p, q) implies self.seen(root, q) by {
                            assert(s0.seen(root, q));
                        }
                    }
                }
            }
            proof {
                let c = choose|c: i32| #![trigger crate::min_heap::is_least(f_before, (c, curr))]
                    crate::min_heap::is_least(f_before, (c, curr)) && f_after == f_before.remove((c, curr));
                assert(f_before.contains((c, curr)));
                let d_new = ord[curr] as int;
                assert(dmin <= d_new <= dmin + 1);
                assert forall|e: (i32, Point)| #[trigger] f_after.contains(e) implies d_new <= ord[e.1] <= d_new + 1 && e.0 <= order by {
                    assert(f_before.contains(e));
                    assert(crate::min_heap::entry_le((c, curr), e));
                    if e.0 == c {
                        assert(e.1 == curr);
                    }
                }
                assert forall|e1: (i32, Point), e2: (i32, Point)| #[trigger] f_after.contains(e1) && #[trigger] f_after.contains(e2)
                    && e1.0 < e2.0 implies ord[e1.1] <= ord[e2.1] by {
                    assert(f_before.contains(e1) && f_before.contains(e2));
                }
                assert forall|e1: (i32, Point), e2: (i32, Point)| #[trigger] f_after.contains(e1) && #[trigger] f_after.contains(e2)
                    && e1.0 == e2.0 implies e1.1 == e2.1 by {
                    assert(f_before.contains(e1) && f_before.contains(e2));
                }
                assert forall|p: Point| #[trigger] self.seen(root, p) && p != curr implies self.frontier_has(p) || (ord[p] <= d_new && forall|q: Point| #[trigger]
                    map.is_exit(p, q) ==> self.seen(root, q) && ord[q] <= ord[p] + 1) by {
                    assert(s0.seen(root, p));
                    if s0.frontier_has(p) {
                        let d = choose|d: i32| #[trigger] f_before.contains((d, p));
                        assert((d, p) != (c, curr));
                        assert(f_after.contains((d, p)));
                    } else {
                        assert forall|q: Point| #[trigger] map.is_exit(p, q) implies self.seen(root, q) && ord[q] <= ord[p] + 1 by {
                            assert(s0.seen(root, q));
                        }
                    }
                }
                dmin = d_new;
            }
            if stop && curr.x == g.x && curr.y == g.y {
                break;
            }
            let ghost c0 = self.visited_count(*map);
            let ghost len0 = self.frontier@.len();
            let exits = map.exits_of(curr);
            let n = exits_len(&exits);
            let mut j: usize = 0;
            while j < n
                invariant
                    map.wf(),
                        map.in_bounds(root),
                    self.bfs_inv(*map, root, order as int),
                    w == map.spec_width(),
                    h == map.spec_height(),
                    w * h < i32::MAX,
                    forall|q: Point| #[trigger] exit_items(exits).contains(q) ==> map.is_exit(curr, q),
                    n == exit_items(exits).len(),
                    j <= n,
                    forall|p: Point| #[trigger] self.seen(root, p) && p != curr ==> self.frontier_has(p) || forall|q: Point| #[trigger]
                        map.is_exit(p, q) ==> self.seen(root, q),
                    forall|k: int| 0 <= k < j ==> self.seen(root, #[trigger] exit_items(exits)[k]),
                    parents_descend(ord, self.came_from@, root),
                    forall|p: Point| #[trigger] ord.contains_key(p) <==> self.seen(root, p),
                    forall|p: Point| #[trigger] ord.contains_key(p) ==> ord[p] <= order,
                    !self.came_from@.contains_key(root),
                    forall|n: Point| #[trigger] self.came_from@.contains_key(n) ==> ord[n] == ord[self.came_from@[n]] + 1,
                    self.seen(root, curr),
                    ord.contains_key(root) && ord[root] == 0,
                    self.layered(root, ord, dmin, order as int),
                    0 <= dmin,
                    ord[curr] == dmin,
                    forall|p: Point| #[trigger] self.seen(root, p) && p != curr ==> self.frontier_has(p) || (ord[p] <= dmin && forall|q: Point| #[trigger]
                        map.is_exit(p, q) ==> self.seen(root, q) && ord[q] <= ord[p] + 1),
                    forall|k: int| 0 <= k < j ==> ord[#[trigger] exit_items(exits)[k]] <= dmin + 1,
                    self.visited_count(*map) >= c0,
                    self.visited_count(*map) == c0 ==> self.frontier@.len() <= len0,
                decreases n - j,
            {
                let next = exits_get(&exits, j);
                proof {
                    assert(exit_items(exits).contains(next));
                }
                let ghost before = *self;
                let ghost ord_b = ord;
                let ghost order_b = order;
                if next != root && map_get(&self.came_from, next).is_none() {
                    proof {
                        lemma_count_insert(self.came_from@, next, curr, w, h);
                        lemma_count_bound(self.came_from@.insert(next, curr), w, h);
                    }
                    order = order + 1;
                    self.frontier.insert(next, order);
                    map_insert(&mut self.came_from, next, curr);
                    proof {
                        let ord0 = ord;
                        assert(ord0.contains_key(curr));
                        ord = ord.insert(next, (ord0[curr] + 1) as i32);
                        assert forall|n: Point| #[trigger] self.came_from@.contains_key(n) && n != root implies ord.contains_key(n)
                            && ord.contains_key(self.came_from@[n]) && ord[self.came_from@[n]] < ord[n] by {
                            if n != next {
                                assert(before.came_from@.contains_key(n));
                                assert(ord0.contains_key(n) && ord0.contains_key(before.came_from@[n]));
                            }
                        }
                        assert forall|n: Point| #[trigger] self.came_from@.contains_key(n) implies ord[n] == ord[self.came_from@[n]] + 1 by {
                            if n != next {
                                assert(before.came_from@.contains_key(n));
                                assert(ord0.contains_key(n) && ord0.contains_key(before.came_from@[n]));
                            }
                        }
                        assert forall|p: Point| #[trigger] ord.contains_key(p) <==> self.seen(root, p) by {
                            if p != next {
                                assert(ord0.contains_key(p) == before.seen(root, p));
                            }
                        }
                        assert forall|p: Point| #[trigger] ord.contains_key(p) && p != root implies self.came_from@.contains_key(p) by {
                            if p != next {
                                assert(ord0.contains_key(p));
                            }
                        }
                        assert(self.frontier@.contains((order, next)));
                        assert forall|e: (i32, Point)| #[trigger] self.frontier@.contains(e) implies map.in_bounds(e.1) && self.seen(root, e.1) by {
                            if e != (order, next) {
                                assert(before.frontier@.contains(e));
                            }
                        }
                        assert forall|p: Point| #[trigger] self.seen(root, p) && p != curr implies self.frontier_has(p) || forall|q: Point| #[trigger]
                            map.is_exit(p, q) ==> self.seen(root, q) by {
                            if p != next {
                                assert(before.seen(root, p));
                                if before.frontier_has(p) {
                                    let d = choose|d: i32| #[trigger] before.frontier@.contains((d, p));
                                    assert(self.frontier@.contains((d, p)));
                                }
                            }
                        }
                        assert forall|k: int| 0 <= k <= j implies self.seen(root, #[trigger] exit_items(exits)[k]) by {
                            if k < j {
                                assert(before.seen(root, exit_items(exits)[k]));
                            }
                        }
                        assert(!before.seen(root, next));
                        assert forall|e: (i32, Point)| #[trigger] self.frontier@.contains(e) implies dmin <= ord[e.1] <= dmin + 1 && e.0 <= order by {
                            if e != (order, next) {
                                assert(before.frontier@.contains(e));
                                assert(before.seen(root, e.1));
                            }
                        }
                        assert forall|e1: (i32, Point), e2: (i32, Point)| #[trigger] self.frontier@.contains(e1) && #[trigger] self.frontier@.contains(e2)
                            && e1.0 < e2.0 implies ord[e1.1] <= ord[e2.1] by {
                            if e1 != (order, next) {
                                assert(before.frontier@.contains(e1));
                                assert(before.seen(root, e1.1));
                            }
                            if e2 != (order, next) {
                                assert(before.frontier@.contains(e2));
                                assert(before.seen(root, e2.1));
                            }
                        }
                        assert forall|e1: (i32, Point), e2: (i32, Point)| #[trigger] self.frontier@.contains(e1) && #[trigger] self.frontier@.contains(e2)
                            && e1.0 == e2.0 implies e1.1 == e2.1 by {
                            if e1 != (order, next) {
                                assert(before.frontier@.contains(e1));
                            }
                            if e2 != (order, next) {
                                assert(before.frontier@.contains(e2));
                            }
                        }
                        assert forall|p: Point| #[trigger] ord.contains_key(p) implies ord[p] <= dmin + 1 by {
                            if p != next {
                                assert(ord_b.contains_key(p));
                            }
                        }
                        assert(self.layered(root, ord, dmin, order as int));
                        assert forall|p: Point| #[trigger] self.seen(root, p) && p != curr implies self.frontier_has(p) || (ord[p] <= dmin && forall|q: Point| #[trigger]
                            map.is_exit(p, q) ==> self.seen(root, q) && ord[q] <= ord[p] + 1) by {
                            if p != next {
                                assert(before.seen(root, p));
                                if before.frontier_has(p) {
                                    let d = choose|d: i32| #[trigger] before.frontier@.contains((d, p));
                                    assert(self.frontier@.contains((d, p)));
                                } else {
                                    assert forall|q: Point| #[trigger] map.is_exit(p, q) implies self.seen(root, q) && ord[q] <= ord[p] + 1 by {
                                        assert(before.seen(root, q));
                                        assert(q != next);
                                    }
                                }
                            } else {
                                assert(self.frontier@.contains((order, next)));
                            }
                        }
                    }
                }
                proof {
                    assert forall|k: int| 0 <= k <= j implies ord[#[trigger] exit_items(exits)[k]] <= dmin + 1 by {
                        let e = exit_items(exits)[k];
                        assert(self.seen(root, e));
                        if k < j {
                            assert(ord_b[e] <= dmin + 1);
                            if e != next {
                                assert(ord[e] == ord_b[e]);
                            }
                        }
                    }
                }
                j += 1;
            }
            proof {
                assert forall|q: Point| #[trigger] map.is_exit(curr, q) implies self.seen(root, q) && ord[q] <= ord[curr] + 1 by {
                    assert(exit_items(exits).contains(q));
                    let k = choose|k: int| 0 <= k < exit_items(exits).len() && #[trigger] exit_items(exits)[k] == q;
                }
                lemma_count_bound(self.came_from@, w, h);
            }
        }
        proof {
            assert forall|q: Point| #[trigger] self.came_from@.contains_key(q) implies reaches(self.came_from@, q, root) by {
                lemma_reaches_root(ord, self.came_from@, root, q);
            }
            if !stop {
                let vis = Set::new(|p: Point| self.seen(root, p));
                assert forall|a: Point, b: Point| #[trigger] vis.contains(a) && #[trigger] map.is_exit(a, b) implies vis.contains(b)
                    && ord[b] <= ord[a] + 1 by {
                    assert(self.seen(root, a));
                }
                assert forall|p: Seq<Point>, wk: Seq<Point>, q: Point|
                    #![trigger is_chain(self.came_from@, p, root, q), is_walk(*map, wk, root, q)]
                    is_chain(self.came_from@, p, root, q) && is_walk(*map, wk, root, q) implies p.len() <= wk.len() by {
                    lemma_chain_depth(self.came_from@, ord, p, root, q);
                    lemma_walk_depth(*map, vis, ord, root, wk, q, wk.len() - 1);
                }
            }
            if !(stop && self.seen(root, g)) {
                let vis = Set::new(|p: Point| self.seen(root, p));
                assert forall|q: Point| #[trigger] connected(*map, root, q) implies self.seen(root, q) by {
                    let wk = choose|wk: Seq<Point>| #[trigger] is_walk(*map, wk, root, q);
                    assert forall|a: Point, b: Point| #[trigger] vis.contains(a) && #[trigger] map.is_exit(a, b) implies vis.contains(b) by {
                        assert(self.seen(root, a));
                    }
                    lemma_walk_recorded(*map, vis, root, wk, q);
                }
            }
        }
    }

    /// The frontier holds cells of depth `d` or `d + 1` under `dep`, the
    /// shallower ones first, each entry with its own order number below
    /// `order`; no seen cell is deeper than `d + 1`.
    spec fn layered(&self, root: Point, dep: Map<Point, i32>, d: int, order: int) -> bool {
        &&& forall|e: (i32, Point)| #[trigger] self.frontier@.contains(e) ==> d <= dep[e.1] <= d + 1 && e.0 <= order
        &&& forall|e1: (i32, Point), e2: (i32, Point)| #[trigger] self.frontier@.contains(e1) && #[trigger] self.frontier@.contains(e2)
            && e1.0 < e2.0 ==> dep[e1.1] <= dep[e2.1]
        &&& forall|e1: (i32, Point), e2: (i32, Point)| #[trigger] self.frontier@.contains(e1) && #[trigger] self.frontier@.contains(e2)
            && e1.0 == e2.0 ==> e1.1 == e2.1
        &&& forall|p: Point| #[trigger] dep.contains_key(p) ==> dep[p] <= d + 1
    }

    /// Each seen cell waits in the frontier, or is no deeper than `d` and
    /// has all its exits seen at most one deeper.
    spec fn layers_closed(&self, map: PathMap2d, root: Point, dep: Map<Point, i32>, d: int) -> bool {
        forall|p: Point| #[trigger]
            self.seen(root, p) ==> self.frontier_has(p) || (dep[p] <= d && forall|q: Point| #[trigger]
                map.is_exit(p, q) ==> self.seen(root, q) && dep[q] <= dep[p] + 1)
    }

    spec fn visited_count(&self, map: PathMap2d) -> int {
        key_count(self.came_from@, map.spec_width(), map.spec_height())
    }

    /// Build the path from `start` to `goal` out of the recorded parents, by
    /// following parents back from `goal`. Returns `None`, leaving the path
    /// empty, when that does not reach `start` within as many steps as there
    /// are recorded parents.
    pub fn build_path(&mut self, start: [i32; 2], goal: [i32; 2]) -> (r: Option<Vec<Point>>)
        ensures
            final(self).wf() == old(self).wf(),
            final(self).parents() == old(self).parents(),
            final(self).cost_map() == old(self).cost_map(),
            r is Some <==> reaches(old(self).parents(), Point::spec_from(goal), Point::spec_from(start)),
            r is Some ==> is_chain(
                old(self).parents(),
                r->0@,
                Point::spec_from(start),
                Point::spec_from(goal),
            ) && final(self).spec_path() == r->0@,
            r is Some ==> forall|i: int| 1 <= i < r->0@.len() ==> #[trigger] r->0@[i] != Point::spec_from(start),
            r is None ==> final(self).spec_path().len() == 0,
            start == goal ==> r is Some && r->0@ == seq![Point::spec_from(start)],
    {
        let r = self.trace_path(Point::from_array(start), Point::from_array(goal));
        proof {
            let s = Point::spec_from(start);
            if start == goal {
                assert(ancestor(old(self).parents(), s, 0) == Some(s));
                let p = r->0@;
                if p.len() >= 2 {
                    assert(p[p.len() - 1] != s);
                }
                assert(p =~= seq![s]);
            }
        }
        r
    }

    fn trace_path(&mut self, start: Point, goal: Point) -> (r: Option<Vec<Point>>)
        ensures
            final(self).wf() == old(self).wf(),
            final(self).frontier == old(self).frontier,
            final(self).parents() == old(self).parents(),
            final(self).cost_map() == old(self).cost_map(),
            r is Some <==> reaches(old(self).parents(), goal, start),
            r is Some ==> is_chain(old(self).parents(), r->0@, start, goal) && final(self).spec_path()
                == r->0@,
            r is Some ==> forall|i: int| 1 <= i < r->0@.len() ==> #[trigger] r->0@[i] != start,
            r is None ==> final(self).spec_path().len() == 0,
    {
        let ghost cf = self.came_from@;
        let limit = map_len(&self.came_from);
        let mut back: Vec<Point> = Vec::new();
        back.push(goal);
        let mut curr = goal;
        let mut steps: usize = 0;
        while curr != start
            invariant
                cf == self.came_from@,
                cf == old(self).came_from@,
                self.frontier == old(self).frontier,
                self.costs@ == old(self).costs@,
                limit == cf.len(),
                steps <= limit,
                back@.len() == steps + 1,
                back@[steps as int] == curr,
                forall|i: int| 0 <= i <= steps ==> ancestor(cf, goal, i as nat) == Some(#[trigger] back@[i]),
                forall|i: int| 0 <= i < steps ==> #[trigger] back@[i] != start,
            decreases limit - steps,
        {
            if steps == limit {
                proof {
                    assert forall|k: nat| k <= cf.len() implies #[trigger] ancestor(cf, goal, k) != Some(start) by {
                        assert(back@[k as int] != start || k == steps);
                    }
                }
                self.path.clear();
                return None;
            }
            match map_get(&self.came_from, curr) {
                None => {
                    proof {
                        assert(ancestor(cf, goal, (steps + 1) as nat) is None);
                        assert forall|k: nat| k <= cf.len() implies #[trigger] ancestor(cf, goal, k) != Some(start) by {
                            if k > steps {
                                lemma_ancestor_none(cf, goal, (steps + 1) as nat, k);
                            } else {
                                assert(back@[k as int] != start || k == steps);
                            }
                        }
                    }
                    self.path.clear();
                    return None;
                },
                Some(next) => {
                    back.push(next);
                    curr = next;
                    steps += 1;
                    proof {
                        assert(ancestor(cf, goal, steps as nat) == Some(next));
                    }
                },
            }
        }
        proof {
            assert(ancestor(cf, goal, steps as nat) == Some(start));
        }
        let n = back.len();
        let mut out: Vec<Point> = Vec::new();
        let mut kept: Vec<Point> = Vec::new();
        let mut i: usize = 0;
        while i < n
            invariant
                self.frontier == old(self).frontier,
                self.costs@ == old(self).costs@,
                self.came_from@ == old(self).came_from@,
                n == back@.len(),
                n == steps + 1,
                i <= n,
                out@.len() == i,
                kept@ == out@,
                forall|j: int| 0 <= j < i ==> #[trigger] out@[j] == back@[n - 1 - j],
            decreases n - i,
        {
            out.push(back[n - 1 - i]);
            kept.push(back[n - 1 - i]);
            i += 1;
        }
        proof {
            assert forall|j: int| 0 <= j < out@.len() - 1 implies #[trigger] cf.contains_key(out@[j + 1]) && cf[out@[j + 1]] == out@[j] by {
                let a = n - 2 - j;
                assert(out@[j + 1] == back@[a]);
                assert(out@[j] == back@[a + 1]);
                assert(ancestor(cf, goal, a as nat) == Some(back@[a]));
                assert(ancestor(cf, goal, (a + 1) as nat) == Some(back@[a + 1]));
            }
            assert forall|i: int| 1 <= i < out@.len() implies #[trigger] out@[i] != start by {
                assert(out@[i] == back@[n - 1 - i]);
            }
        }
        self.path = kept;
        Some(out)
    }
}

} // verus!
