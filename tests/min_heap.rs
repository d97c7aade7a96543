use sark_pathfinding::MinHeap;

#[test]
fn heap() {
    let mut heap = MinHeap::new();
    heap.push([2, 2], 2);
    heap.push([-10, -10], -10);
    heap.push([1, 1], 1);
    heap.push([5, 5], 5);

    assert_eq!([-10, -10], heap.pop().unwrap().to_array());
    assert_eq!([1, 1], heap.pop().unwrap().to_array());
    assert_eq!([2, 2], heap.pop().unwrap().to_array());
    assert_eq!([5, 5], heap.pop().unwrap().to_array());
}

#[test]
fn heap_doc_example() {
    let mut heap = MinHeap::new();
    heap.push([10, 10], 5);
    heap.push([1, 1], 2);
    heap.push([15, 15], -1);
    heap.push([33, 33], 6);
    heap.push([7, 7], 1);
    assert_eq!(heap.pop().unwrap().to_array(), [15, 15]);
}

#[test]
fn heap_equal_costs_pop_by_y_then_x() {
    let mut heap = MinHeap::with_capacity(8);
    heap.push([3, 1], 4);
    heap.push([0, 2], 4);
    heap.push([1, 1], 4);
    heap.push([9, 0], 4);
    assert_eq!(heap.pop().unwrap().to_array(), [9, 0]);
    assert_eq!(heap.pop().unwrap().to_array(), [1, 1]);
    assert_eq!(heap.pop().unwrap().to_array(), [3, 1]);
    assert_eq!(heap.pop().unwrap().to_array(), [0, 2]);
    assert!(heap.pop().is_none());
}

#[test]
fn heap_pops_in_nondecreasing_cost_order() {
    let costs = [7, -3, 12, 0, 7, 5, -3, 100, 2, 2, 9, 1];
    let mut heap = MinHeap::new();
    for (i, c) in costs.iter().enumerate() {
        heap.push([i as i32, 0], *c);
    }
    let mut out = Vec::new();
    while let Some(e) = heap.pop_entry() {
        out.push(e.0);
    }
    let mut sorted = costs.to_vec();
    sorted.sort();
    assert_eq!(out, sorted);
}

#[test]
fn heap_duplicates_and_len() {
    let mut heap = MinHeap::new();
    assert!(heap.is_empty());
    heap.push([1, 1], 3);
    heap.push([1, 1], 3);
    heap.push([1, 1], 1);
    assert_eq!(heap.len(), 3);
    assert_eq!(heap.pop_entry().unwrap().0, 1);
    assert_eq!(heap.pop_entry().unwrap().0, 3);
    assert_eq!(heap.len(), 1);
    heap.clear();
    assert!(heap.is_empty());
    assert!(heap.pop().is_none());
}
