//! Declarations and contracts for the outside collections the library keeps:
//! `sark_grids::BitGrid`, `arrayvec::ArrayVec` and ahash's hash maps and sets.
use vstd::prelude::*;
use arrayvec::ArrayVec;
use sark_grids::BitGrid;
use crate::point::Point;

verus! {

/// An `ahash` hash map keyed by grid points.
pub type PointMap<V> = std::collections::HashMap<Point, V, ahash::RandomState>;

/// An `ahash` hash set of grid points.
pub type PointSet = std::collections::HashSet<Point, ahash::RandomState>;

#[verifier::external_type_specification]
#[verifier::external_body]
pub struct ExBitGrid(BitGrid);

#[verifier::external_type_specification]
#[verifier::external_body]
pub struct ExRandomState(ahash::RandomState);

#[verifier::external_type_specification]
#[verifier::external_body]
#[verifier::reject_recursive_types(T)]
pub struct ExArrayVec<T, const CAP: usize>(ArrayVec<T, CAP>);

/// The bits of a `BitGrid`, row by row from the bottom row.
pub uninterp spec fn grid_bits(g: BitGrid) -> Seq<bool>;

/// The points held by an `ArrayVec` of exits, in order.
pub uninterp spec fn exit_items(a: ArrayVec<Point, 8>) -> Seq<Point>;

/// Relies on `BitGrid::new`: a grid of `width * height` bits, all clear.
#[verifier::external_body]
pub(crate) fn bit_grid_new(width: u32, height: u32) -> (r: BitGrid)
    requires
        width as int * height as int <= usize::MAX,
    ensures
        grid_bits(r) == Seq::new((width as int * height as int) as nat, |i: int| false),
{
    BitGrid::new([width, height])
}

/// Relies on `BitGrid::get_index`: the bit at index `i` (it panics past the end).
pub assume_specification[ BitGrid::get_index ](g: &BitGrid, i: usize) -> (r: bool)
    requires
        i < grid_bits(*g).len(),
    ensures
        r == grid_bits(*g)[i as int],
;

/// Relies on `BitGrid::set_index`: writes the bit at index `i` (it panics past the end).
pub assume_specification[ BitGrid::set_index ](g: &mut BitGrid, i: usize, value: bool)
    requires
        i < grid_bits(*old(g)).len(),
    ensures
        grid_bits(*final(g)) == grid_bits(*old(g)).update(i as int, value),
;

/// Relies on `BitGrid::toggle_index`: flips the bit at index `i` (it panics past the end).
pub assume_specification[ BitGrid::toggle_index ](g: &mut BitGrid, i: usize)
    requires
        i < grid_bits(*old(g)).len(),
    ensures
        grid_bits(*final(g)) == grid_bits(*old(g)).update(
            i as int,
            !grid_bits(*old(g))[i as int],
        ),
;

/// Relies on `BitGrid::set_all`: every bit takes `value`, the length is kept.
pub assume_specification[ BitGrid::set_all ](g: &mut BitGrid, value: bool)
    ensures
        grid_bits(*final(g)) == Seq::new(grid_bits(*old(g)).len(), |i: int| value),
;

/// Relies on `ArrayVec::new`: an empty vector.
#[verifier::external_body]
pub(crate) fn exits_new() -> (r: ArrayVec<Point, 8>)
    ensures
        exit_items(r) == Seq::<Point>::empty(),
{
    ArrayVec::new()
}

/// Relies on `ArrayVec::push`: appends (it panics when full).
#[verifier::external_body]
pub(crate) fn exits_push(a: &mut ArrayVec<Point, 8>, p: Point)
    requires
        exit_items(*old(a)).len() < 8,
    ensures
        exit_items(*final(a)) == exit_items(*old(a)).push(p),
{
    a.push(p)
}

/// Relies on `ArrayVec::len`.
#[verifier::external_body]
pub(crate) fn exits_len(a: &ArrayVec<Point, 8>) -> (r: usize)
    ensures
        r == exit_items(*a).len(),
{
    a.len()
}

/// Relies on indexing an `ArrayVec` (through its slice).
#[verifier::external_body]
pub(crate) fn exits_get(a: &ArrayVec<Point, 8>, i: usize) -> (r: Point)
    requires
        i < exit_items(*a).len(),
    ensures
        r == exit_items(*a)[i as int],
{
    a[i]
}

/// Relies on `str::chars`: the characters of `s`, in order.
#[verifier::external_body]
pub(crate) fn chars_of(s: &str) -> (r: Vec<char>)
    ensures
        r@ == s@,
{
    s.chars().collect()
}

/// Relies on `HashMap::default` with ahash's `RandomState`: an empty map.
#[verifier::external_body]
pub(crate) fn map_new<V>() -> (r: PointMap<V>)
    ensures
        r@.dom() == Set::<Point>::empty(),
{
    PointMap::default()
}

/// Relies on `HashMap::insert`; ahash's hasher hashes equal points alike.
#[verifier::external_body]
pub(crate) fn map_insert<V>(m: &mut PointMap<V>, k: Point, v: V)
    ensures
        final(m)@ == old(m)@.insert(k, v),
{
    m.insert(k, v);
}

/// Relies on `HashMap::get`; ahash's hasher hashes equal points alike.
#[verifier::external_body]
pub(crate) fn map_get<V: Copy>(m: &PointMap<V>, k: Point) -> (r: Option<V>)
    ensures
        r == (if m@.contains_key(k) { Some(m@[k]) } else { None::<V> }),
{
    m.get(&k).copied()
}

/// Relies on `HashMap::len`: the number of keys.
#[verifier::external_body]
pub(crate) fn map_len<V>(m: &PointMap<V>) -> (r: usize)
    ensures
        r == m@.len(),
{
    m.len()
}

/// Relies on `HashMap::keys`: each key once, in an unspecified order.
#[verifier::external_body]
pub(crate) fn map_keys<V>(m: &PointMap<V>) -> (r: Vec<Point>)
    ensures
        r@.to_set() == m@.dom(),
        r@.no_duplicates(),
{
    m.keys().copied().collect()
}

/// Relies on `HashSet::default` with ahash's `RandomState`: an empty set.
#[verifier::external_body]
pub(crate) fn set_new() -> (r: PointSet)
    ensures
        r@ == Set::<Point>::empty(),
{
    PointSet::default()
}

/// Relies on `HashSet::insert`; ahash's hasher hashes equal points alike.
#[verifier::external_body]
pub(crate) fn set_insert(s: &mut PointSet, k: Point)
    ensures
        final(s)@ == old(s)@.insert(k),
{
    s.insert(k);
}

/// Relies on `HashSet::remove`; ahash's hasher hashes equal points alike.
#[verifier::external_body]
pub(crate) fn set_remove(s: &mut PointSet, k: Point)
    ensures
        final(s)@ == old(s)@.remove(k),
{
    s.remove(&k);
}

/// Relies on `HashSet::contains`; ahash's hasher hashes equal points alike.
#[verifier::external_body]
pub(crate) fn set_contains(s: &PointSet, k: Point) -> (r: bool)
    ensures
        r == s@.contains(k),
{
    s.contains(&k)
}

/// Relies on `HashSet::iter`: each member once, in an unspecified order.
#[verifier::external_body]
pub(crate) fn set_members(s: &PointSet) -> (r: Vec<Point>)
    ensures
        r@.to_set() == s@,
        r@.no_duplicates(),
{
    s.iter().copied().collect()
}

} // verus!
