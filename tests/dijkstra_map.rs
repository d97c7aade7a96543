use sark_pathfinding::dijkstra_map::INITIAL_VALUE;
use sark_pathfinding::{Adjacency, DijkstraMap, PathMap2d};

fn value(m: &DijkstraMap, x: usize, y: usize) -> i32 {
    m.values()[y * m.size()[0] as usize + x]
}

#[test]
fn cardinal_single_goal() {
    let mut pathing = PathMap2d::new([10, 10]);
    pathing.adjacency = Adjacency::Cardinal;
    let mut map = DijkstraMap::new([10, 10]);
    map.add_goal([5, 5], 0);
    map.recalculate(&pathing);
    assert_eq!(value(&map, 5, 5), 0);
    assert_eq!(value(&map, 5, 6), 1);
    assert_eq!(value(&map, 0, 0), 10);
}

#[test]
fn next_lowest_follows_weighted_goals() {
    let mut pathmap = PathMap2d::new([20, 20]);
    pathmap.add_obstacle([5, 5]);
    pathmap.add_obstacle([5, 6]);
    pathmap.add_obstacle([5, 7]);
    let mut goals = DijkstraMap::new([20, 20]);
    goals.add_goal([10, 10], 0);
    goals.add_goal([15, 15], 5);
    goals.recalculate(&pathmap);
    let next_step = goals.next_lowest([13, 13], &pathmap).unwrap();
    assert_eq!([12, 12], next_step.to_array());
}

#[test]
fn recalculate_twice_is_unchanged() {
    let mut pathing = PathMap2d::new([9, 9]);
    pathing.add_obstacle([4, 4]);
    pathing.add_obstacle([4, 5]);
    let mut map = DijkstraMap::new([9, 9]);
    map.add_goal([2, 2], 1);
    map.add_goal([8, 8], 3);
    map.recalculate(&pathing);
    let first = map.values().to_vec();
    let reached: Vec<_> = map.iter_xy();
    map.recalculate(&pathing);
    assert_eq!(map.values().to_vec(), first);
    assert_eq!(map.iter_xy(), reached);
}

#[test]
fn goal_values_add_and_set() {
    let mut map = DijkstraMap::new([4, 4]);
    map.add_goal([1, 1], 2);
    map.add_goal([1, 1], 3);
    assert_eq!(value(&map, 1, 1), 5);
    map.set_goal([1, 1], -4);
    assert_eq!(value(&map, 1, 1), -4);
    map.set_goal([2, 3], 7);
    let mut goals = map.goals();
    goals.sort_by_key(|g| (g.0.y, g.0.x));
    assert_eq!(goals.len(), 2);
    assert_eq!(goals[0].0.to_array(), [1, 1]);
    assert_eq!(goals[0].1, -4);
    assert_eq!(goals[1].1, 7);
    map.remove_goal([2, 3]);
    assert_eq!(map.goals().len(), 1);
    assert_eq!(value(&map, 2, 3), 7);
}

#[test]
fn clear_values_keeps_goals() {
    let pathing = PathMap2d::new([5, 5]);
    let mut map = DijkstraMap::new([5, 5]);
    map.add_goal([0, 0], 0);
    map.recalculate(&pathing);
    assert_eq!(value(&map, 4, 4), 12);
    map.clear_values();
    assert_eq!(value(&map, 0, 0), 0);
    assert_eq!(value(&map, 4, 4), INITIAL_VALUE);
    map.clear_all();
    assert!(map.goals().is_empty());
    assert!(map.iter_xy().is_empty());
    assert_eq!(value(&map, 0, 0), INITIAL_VALUE);
}

#[test]
fn initial_value_and_negation() {
    let pathing = PathMap2d::new([3, 3]);
    let mut map = DijkstraMap::new([3, 3]).with_initial_value(50);
    assert_eq!(value(&map, 2, 2), 50);
    map.add_goal([0, 0], 1);
    map.recalculate(&pathing);
    assert_eq!(value(&map, 2, 2), 7);
    map.apply_operation(|v| -v);
    assert_eq!(value(&map, 2, 2), -7);
    assert_eq!(value(&map, 0, 0), -1);
    assert_eq!(map.next_highest([1, 1], &pathing).unwrap().to_array(), [0, 0]);
    assert_eq!(map.next_lowest([1, 1], &pathing).unwrap().to_array(), [2, 2]);
}

#[test]
fn exit_values_sorted_lowest_first() {
    let pathing = PathMap2d::new([5, 5]);
    let mut map = DijkstraMap::new([5, 5]);
    map.add_goal([0, 0], 0);
    map.recalculate(&pathing);
    let ev = map.exit_values([2, 2], &pathing);
    assert_eq!(ev.len(), 8);
    assert_eq!(ev[0].0.to_array(), [1, 1]);
    assert_eq!(ev[0].1, 3);
    for w in ev.windows(2) {
        assert!(w[0].1 <= w[1].1);
    }
    let ex = map.exits([2, 2], &pathing);
    assert_eq!(ex[0].to_array(), [1, 1]);
    assert_eq!(ex[7].to_array(), [3, 3]);
}

#[test]
fn next_lowest_ties_take_first_exit() {
    let pathing = PathMap2d::new([3, 3]);
    let map = DijkstraMap::new([3, 3]);
    assert_eq!(map.next_lowest([1, 1], &pathing).unwrap().to_array(), [1, 2]);
    assert_eq!(map.next_highest([1, 1], &pathing).unwrap().to_array(), [1, 2]);
}

#[test]
fn unreachable_cells_are_skipped() {
    let pathing = PathMap2d::from_string("..#..\n..#..\n..#..", '#').unwrap();
    let mut map = DijkstraMap::new([5, 3]);
    map.add_goal([0, 0], 0);
    map.recalculate(&pathing);
    assert_eq!(value(&map, 4, 0), INITIAL_VALUE);
    let cells: Vec<[i32; 2]> = map.iter_xy().iter().map(|e| e.0.to_array()).collect();
    assert!(cells.contains(&[1, 1]));
    assert!(!cells.contains(&[2, 1]));
    assert!(!cells.contains(&[4, 0]));
    assert!(!cells.contains(&[3, 2]));
}

#[test]
fn no_goals_reaches_nothing() {
    let pathing = PathMap2d::new([4, 4]);
    let mut map = DijkstraMap::new([4, 4]);
    map.recalculate(&pathing);
    assert!(map.iter_xy().is_empty());
    assert!(map.values().iter().all(|v| *v == INITIAL_VALUE));
}

#[test]
fn from_string_irregular_field_is_none() {
    assert!(DijkstraMap::from_string("#3.\n.#").is_none());
}

#[test]
fn from_string_goals_and_walls() {
    let map = DijkstraMap::from_string("#3.\n.#.\n..0").unwrap();
    assert_eq!(map.size(), [3, 3]);
    assert_eq!(value(&map, 1, 2), 3);
    assert_eq!(value(&map, 2, 0), 0);
    assert_eq!(value(&map, 0, 0), INITIAL_VALUE);
    assert_eq!(map.goals().len(), 2);
    let cells: Vec<[i32; 2]> = map.iter_xy().iter().map(|e| e.0.to_array()).collect();
    assert!(!cells.contains(&[0, 2]));
    assert!(!cells.contains(&[1, 1]));
    assert!(cells.contains(&[1, 2]));
    assert!(DijkstraMap::from_string("\n").is_none());
}

#[test]
fn field_is_least_goal_value_plus_distance() {
    let mut pathing = PathMap2d::new([9, 9]);
    pathing.adjacency = Adjacency::Cardinal;
    let mut map = DijkstraMap::new([9, 9]);
    map.add_goal([0, 0], 0);
    map.add_goal([8, 8], 2);
    map.recalculate(&pathing);
    assert_eq!(value(&map, 4, 4), 8);
    assert_eq!(value(&map, 8, 7), 3);
    assert_eq!(value(&map, 8, 8), 2);
    assert_eq!(value(&map, 0, 0), 0);
}
