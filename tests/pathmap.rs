use sark_pathfinding::pathmap::{DEFAULT_CARDINAL_COST, DEFAULT_DIAGONAL_COST};
use sark_pathfinding::point::{cardinal_heuristic, is_cardinal, octile_heuristic};
use sark_pathfinding::{Adjacency, PathMap2d, Point};

#[test]
fn from_string_enclosed_center() {
    let map = PathMap2d::from_string("###\n#.#\n###", '#').unwrap();
    assert_eq!(map.size(), [3, 3]);
    for y in 0..3 {
        for x in 0..3 {
            assert_eq!(map.is_obstacle([x, y]), !(x == 1 && y == 1));
        }
    }
    assert_eq!(map.exits([1, 1]).len(), 0);
}

#[test]
fn from_string_rows_bottom_up() {
    let map = PathMap2d::from_string("\n#..\r\n\n.#.\n", '#').unwrap();
    assert_eq!(map.width(), 3);
    assert_eq!(map.height(), 2);
    assert!(map.is_obstacle([0, 1]));
    assert!(!map.is_obstacle([1, 1]));
    assert!(map.is_obstacle([1, 0]));
    assert!(!map.is_obstacle([2, 0]));
}

#[test]
fn from_string_irregular_is_none() {
    assert!(PathMap2d::from_string("###\n#", '#').is_none());
    assert!(PathMap2d::from_string("#..\n.#", '#').is_none());
}

#[test]
fn adjacency_setters() {
    let mut map = PathMap2d::new([3, 3]).with_adjacency(Adjacency::Cardinal);
    assert_eq!(map.exits([1, 1]).len(), 4);
    map.set_adjacency(Adjacency::default());
    assert_eq!(map.exits([1, 1]).len(), 8);
}

#[test]
fn from_string_empty_is_none() {
    assert!(PathMap2d::from_string("", '#').is_none());
    assert!(PathMap2d::from_string("\n\n\r\n", '#').is_none());
}

#[test]
fn exits_in_neighbour_order() {
    let mut map = PathMap2d::new([3, 3]);
    let all: Vec<[i32; 2]> = map.exits([1, 1]).iter().map(|p| p.to_array()).collect();
    assert_eq!(all, vec![[1, 2], [1, 0], [0, 1], [2, 1], [0, 2], [2, 2], [0, 0], [2, 0]]);
    map.add_obstacle([1, 2]);
    map.toggle_obstacle([0, 0]);
    let some: Vec<[i32; 2]> = map.exits([1, 1]).iter().map(|p| p.to_array()).collect();
    assert_eq!(some, vec![[1, 0], [0, 1], [2, 1], [0, 2], [2, 2], [2, 0]]);
    map.adjacency = Adjacency::Cardinal;
    let four: Vec<[i32; 2]> = map.exits([0, 1]).iter().map(|p| p.to_array()).collect();
    assert_eq!(four, vec![[0, 2], [1, 1]]);
}

#[test]
fn obstacle_edits() {
    let mut map = PathMap2d::new([4, 4]);
    map.set_obstacle([1, 1], true);
    assert!(map.is_obstacle([1, 1]));
    map.move_obstacle([1, 1], [2, 2]);
    assert!(!map.is_obstacle([1, 1]));
    assert!(map.is_obstacle([2, 2]));
    map.remove_obstacle([2, 2]);
    assert!(!map.is_obstacle([2, 2]));
    map.toggle_obstacle([3, 3]);
    assert!(map.is_obstacle([3, 3]));
    map.toggle_obstacle([3, 3]);
    assert!(!map.is_obstacle([3, 3]));
}

#[test]
fn costs_and_distances() {
    let mut map = PathMap2d::new([10, 10]);
    assert_eq!(map.cost([0, 0], [1, 0]), DEFAULT_CARDINAL_COST);
    assert_eq!(map.cost([0, 0], [1, 1]), DEFAULT_DIAGONAL_COST);
    assert_eq!(map.distance([0, 0], [5, 0]), 10);
    assert_eq!(map.distance([0, 0], [3, 2]), 8);
    assert_eq!(map.distance([7, 1], [2, 6]), 15);
    map.adjacency = Adjacency::Cardinal;
    assert_eq!(map.cost([0, 0], [1, 1]), 1);
    assert_eq!(map.distance([0, 0], [3, 2]), 5);
}

#[test]
fn heuristics() {
    let a = Point::new(1, 2);
    let b = Point::from_array([4, -2]);
    assert!(!is_cardinal(a, b));
    assert!(is_cardinal(a, Point::new(1, 9)));
    assert_eq!(cardinal_heuristic(a, b), 7);
    assert_eq!(octile_heuristic(a, b, 2, 3), 11);
    assert_eq!(octile_heuristic(a, b, 1, 1), 4);
    assert_eq!(octile_heuristic(a, a, 2, 3), 0);
}

#[test]
fn default_adjacency_is_octile() {
    assert_eq!(
        Adjacency::default(),
        Adjacency::Octile { cardinal_cost: 2, diagonal_cost: 3 }
    );
}
