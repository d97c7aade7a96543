use sark_pathfinding::{Adjacency, PathMap2d, Pathfinder};

#[test]
fn right_test() {
    let map = PathMap2d::new([10, 10]);

    let mut pf = Pathfinder::new();
    let path = pf.astar(&map, [0, 0], [5, 0]).unwrap();

    assert_eq!(6, path.len());
    assert_eq!([0, 0], path[0].to_array());
    assert_eq!([5, 0], path[5].to_array());
}

#[test]
fn down_test() {
    let map = PathMap2d::new([10, 10]);

    let mut astar = Pathfinder::new();
    let path = astar.astar(&map, [5, 5], [5, 0]).unwrap();

    assert_eq!(6, path.len());
    assert_eq!([5, 5], path[0].to_array());
    assert_eq!([5, 0], path[5].to_array());
}

#[test]
fn up_test() {
    let map = PathMap2d::new([10, 10]);

    let mut astar = Pathfinder::new();
    let path = astar.astar(&map, [5, 4], [5, 9]).unwrap();

    assert_eq!(6, path.len());
    assert_eq!([5, 4], path[0].to_array());
    assert_eq!([5, 9], path[5].to_array());
}

#[test]
fn left_test() {
    let map = PathMap2d::new([10, 10]);

    let mut astar = Pathfinder::new();
    let path = astar.astar(&map, [9, 5], [4, 5]).unwrap();

    assert_eq!(6, path.len());
    assert_eq!([9, 5], path[0].to_array());
    assert_eq!([4, 5], path[5].to_array());
}

fn path_cost(map: &PathMap2d, path: &[sark_pathfinding::Point]) -> i32 {
    path.windows(2).map(|w| map.cost(w[0].to_array(), w[1].to_array())).sum()
}

#[test]
fn astar_open_grid_straight_line() {
    let map = PathMap2d::new([10, 10]);
    let mut pf = Pathfinder::new();
    let path = pf.astar(&map, [0, 0], [5, 0]).unwrap();
    let cells: Vec<[i32; 2]> = path.iter().map(|p| p.to_array()).collect();
    assert_eq!(cells, vec![[0, 0], [1, 0], [2, 0], [3, 0], [4, 0], [5, 0]]);
    assert_eq!(path_cost(&map, &path), 10);
    assert_eq!(pf.path().len(), 6);
}

#[test]
fn astar_path_steps_are_exits() {
    let mut map = PathMap2d::new([12, 12]);
    for y in 0..10 {
        map.add_obstacle([6, y]);
    }
    let mut pf = Pathfinder::new();
    let path = pf.astar(&map, [1, 1], [10, 1]).unwrap();
    assert_eq!(path[0].to_array(), [1, 1]);
    assert_eq!(path[path.len() - 1].to_array(), [10, 1]);
    for w in path.windows(2) {
        assert!(map.exits(w[0].to_array()).iter().any(|q| *q == w[1]));
        assert!(map.exits(w[1].to_array()).iter().any(|q| *q == w[0]));
    }
}

#[test]
fn astar_enclosed_start_has_no_path() {
    let mut map = PathMap2d::new([10, 10]);
    for x in 2..=4 {
        map.add_obstacle([x, 2]);
        map.add_obstacle([x, 4]);
    }
    map.add_obstacle([2, 3]);
    map.add_obstacle([4, 3]);
    let mut pf = Pathfinder::new();
    assert!(pf.astar(&map, [3, 3], [8, 8]).is_none());
    assert!(pf.path().is_empty());
}

#[test]
fn astar_start_equals_goal() {
    let map = PathMap2d::new([4, 4]);
    let mut pf = Pathfinder::with_capacity(16);
    let path = pf.astar(&map, [2, 2], [2, 2]).unwrap();
    assert_eq!(path.len(), 1);
    assert_eq!(path[0].to_array(), [2, 2]);
}

#[test]
fn astar_cost_matches_dijkstra() {
    let mut map = PathMap2d::new([15, 15]);
    for y in 3..15 {
        map.add_obstacle([7, y]);
    }
    map.add_obstacle([3, 3]);
    let mut pf = Pathfinder::new();
    let path = pf.astar(&map, [0, 14], [14, 14]).unwrap();
    let cost = path_cost(&map, &path);
    let mut dj = Pathfinder::new();
    dj.dijkstra(&map, Some([0, 14]), [14, 14]);
    let best = *dj.costs().get(&sark_pathfinding::Point::new(14, 14)).unwrap();
    assert_eq!(cost, best);
}

#[test]
fn dijkstra_then_build_path() {
    let map = PathMap2d::new([6, 6]);
    let mut pf = Pathfinder::new();
    pf.dijkstra(&map, None::<[i32; 2]>, [0, 0]);
    assert_eq!(pf.visited().len(), 35);
    let path = pf.build_path([0, 0], [5, 5]).unwrap();
    assert_eq!(path.first().unwrap().to_array(), [0, 0]);
    assert_eq!(path.last().unwrap().to_array(), [5, 5]);
    assert_eq!(path.len(), 6);
    assert_eq!(*pf.costs().get(&sark_pathfinding::Point::new(5, 5)).unwrap(), 15);
}

#[test]
fn bfs_cardinal_path_length() {
    let mut map = PathMap2d::new([5, 5]);
    map.adjacency = Adjacency::Cardinal;
    let mut pf = Pathfinder::new();
    pf.bfs(&map, Some([0, 0]), [4, 3]);
    let path = pf.build_path([0, 0], [4, 3]).unwrap();
    assert_eq!(path.len(), 8);
    assert_eq!(path[0].to_array(), [0, 0]);
    assert_eq!(path[7].to_array(), [4, 3]);
    assert!(pf.came_from().contains_key(&sark_pathfinding::Point::new(4, 3)));
}

#[test]
fn build_path_without_search_is_none() {
    let mut pf = Pathfinder::new();
    assert!(pf.build_path([0, 0], [1, 1]).is_none());
    pf.clear();
    assert!(pf.path().is_empty());
}

#[test]
fn build_path_to_itself_is_one_cell() {
    let map = PathMap2d::new([5, 5]);
    let mut pf = Pathfinder::new();
    pf.bfs(&map, None::<[i32; 2]>, [2, 2]);
    let path = pf.build_path([4, 4], [4, 4]).unwrap();
    assert_eq!(path.len(), 1);
    assert_eq!(path[0].to_array(), [4, 4]);
}

#[test]
fn bfs_root_has_no_parent_and_paths_are_shortest() {
    let mut map = PathMap2d::new([6, 6]);
    map.set_adjacency(Adjacency::Cardinal);
    map.add_obstacle([1, 0]);
    map.add_obstacle([1, 1]);
    let mut pf = Pathfinder::new();
    pf.bfs(&map, None::<[i32; 2]>, [0, 0]);
    assert!(!pf.came_from().contains_key(&sark_pathfinding::Point::new(0, 0)));
    let path = pf.build_path([0, 0], [2, 0]).unwrap();
    assert_eq!(path.len(), 7);
    assert_eq!(pf.visited().len(), 33);
}
