use seg_tree::nodes::Node;
use seg_tree::segment_tree::LazySegmentTree;
use seg_tree::utils::{LazySetWrapper, Max, Min};
use seg_tree::LazyRecursive;

type LSMin<T> = LazySetWrapper<Min<T>>;

#[test]
fn lazy_build_works() {
    let n = 16;
    let nodes: Vec<LSMin<usize>> = (0..n).map(|x| LSMin::initialize(&x)).collect();
    let mut segment_tree = LazySegmentTree::build(&nodes);
    for i in 0..n {
        let temp = segment_tree.query(i, i).unwrap();
        assert_eq!(temp.value(), &i);
    }
}

#[test]
fn lazy_non_empty_query_returns_some() {
    let nodes: Vec<LSMin<usize>> = (0..10).map(|x| LSMin::initialize(&x)).collect();
    let mut segment_tree = LazySegmentTree::build(&nodes);
    assert!(segment_tree.query(0, 9).is_some());
}

#[test]
fn lazy_empty_query_returns_none() {
    let nodes: Vec<LSMin<usize>> = (0..10).map(|x| LSMin::initialize(&x)).collect();
    let mut segment_tree = LazySegmentTree::build(&nodes);
    assert!(segment_tree.query(10, 0).is_none());
}

#[test]
fn lazy_range_set_update_works() {
    let nodes: Vec<LSMin<usize>> = (0..10).map(|x| LSMin::initialize(&x)).collect();
    let mut segment_tree = LazySegmentTree::build(&nodes);
    let value = 20;
    segment_tree.update(0, 9, value);
    assert_eq!(segment_tree.query(0, 1).unwrap().value(), &value);
}

#[test]
fn lazy_query_works() {
    let nodes: Vec<LSMin<usize>> = (0..10).map(|x| LSMin::initialize(&x)).collect();
    let mut segment_tree = LazySegmentTree::build(&nodes);
    assert_eq!(segment_tree.query(1, 9).unwrap().value(), &1);
}

#[test]
fn lazy_recursive_build_works() {
    let n = 16;
    let nodes: Vec<LSMin<usize>> = (0..n).map(|x| LSMin::initialize(&x)).collect();
    let mut segment_tree = LazyRecursive::build(&nodes);
    for i in 0..n {
        let temp = segment_tree.query(i, i).unwrap();
        assert_eq!(temp.value(), &i);
    }
}

#[test]
fn lazy_recursive_non_empty_query_returns_some() {
    let nodes: Vec<LSMin<usize>> = (0..10).map(|x| LSMin::initialize(&x)).collect();
    let mut segment_tree = LazyRecursive::build(&nodes);
    assert!(segment_tree.query(0, 9).is_some());
}

#[test]
fn lazy_recursive_empty_query_returns_none() {
    let nodes: Vec<LSMin<usize>> = (0..10).map(|x| LSMin::initialize(&x)).collect();
    let mut segment_tree = LazyRecursive::build(&nodes);
    assert!(segment_tree.query(10, 0).is_none());
}

#[test]
fn lazy_recursive_update_works() {
    let nodes: Vec<LSMin<usize>> = (0..10).map(|x| LSMin::initialize(&x)).collect();
    let mut segment_tree = LazyRecursive::build(&nodes);
    let value = 20;
    segment_tree.update(0, 9, &value);
    assert_eq!(segment_tree.query(0, 1).unwrap().value(), &value);
}

#[test]
fn lazy_recursive_query_works() {
    let nodes: Vec<LSMin<usize>> = (0..10).map(|x| LSMin::initialize(&x)).collect();
    let mut segment_tree = LazyRecursive::build(&nodes);
    assert_eq!(segment_tree.query(1, 9).unwrap().value(), &1);
}

type LSMax<T> = LazySetWrapper<Max<T>>;

#[test]
fn lazy_recursive_lower_bound_finds_first_reaching_max() {
    // The position of the first element at least as large as the target.
    let predicate = |left_value: &usize, value: &usize| *left_value >= *value;
    let g = |_left_node: &usize, value: usize| value;
    let nodes: Vec<LSMax<usize>> = (0..10).map(|x| LSMax::initialize(&x)).collect();
    let seg_tree = LazyRecursive::build(&nodes);
    assert_eq!(seg_tree.lower_bound(predicate, g, 3), 3);
    for i in 0..10 {
        assert_eq!(seg_tree.lower_bound(predicate, g, i), i);
    }
}

#[test]
fn lazy_lower_bound_sees_pending_range_updates() {
    // After painting [0, 9] with 50, the first position reaching 50 is 0,
    // even though the pending value has not been pushed into the arrays yet.
    let predicate = |left_value: &usize, value: &usize| *left_value >= *value;
    let g = |_left_node: &usize, value: usize| value;
    let nodes: Vec<LSMax<usize>> = (0..10).map(|x| LSMax::initialize(&x)).collect();
    let mut seg_tree = LazyRecursive::build(&nodes);
    seg_tree.update(3, 9, &50);
    assert_eq!(seg_tree.lower_bound(predicate, g, 50), 3);
    assert_eq!(seg_tree.lower_bound(predicate, g, 2), 2);
}
