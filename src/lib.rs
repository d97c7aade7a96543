//! Grid pathfinding: an obstacle map, A*, Dijkstra and breadth-first search,
//! a min-heap of grid positions, and "Dijkstra maps" (goal fields).
use vstd::prelude::*;

pub mod bindings;
pub mod dijkstra_map;
pub mod grid_sum;
pub mod min_heap;
pub mod pathfinder;
pub mod pathmap;
pub mod point;
pub mod text;

pub use dijkstra_map::DijkstraMap;
pub use min_heap::MinHeap;
pub use pathfinder::Pathfinder;
pub use pathmap::{Adjacency, PathMap2d};
pub use point::Point;

verus! {

} // verus!
