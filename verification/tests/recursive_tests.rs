use seg_tree::nodes::Node;
use seg_tree::utils::{Max, Min, Sum};
use seg_tree::Recursive;

#[test]
fn recursive_non_empty_query_returns_some() {
    let nodes: Vec<Min<usize>> = (0..=10).map(|x| Min::initialize(&x)).collect();
    let segment_tree = Recursive::build(&nodes);
    assert!(segment_tree.query(0, 10).is_some());
}

#[test]
fn recursive_empty_query_returns_none() {
    let nodes: Vec<Min<usize>> = (0..=10).map(|x| Min::initialize(&x)).collect();
    let segment_tree = Recursive::build(&nodes);
    assert!(segment_tree.query(10, 0).is_none());
}

#[test]
fn recursive_update_works() {
    let nodes: Vec<Min<usize>> = (0..=10).map(|x| Min::initialize(&x)).collect();
    let mut segment_tree = Recursive::build(&nodes);
    let value = 20;
    segment_tree.update(0, &value);
    assert_eq!(segment_tree.query(0, 0).unwrap().value(), &value);
}

#[test]
fn recursive_query_works() {
    let nodes: Vec<Min<usize>> = (0..=10).map(|x| Min::initialize(&x)).collect();
    let segment_tree = Recursive::build(&nodes);
    assert_eq!(segment_tree.query(1, 10).unwrap().value(), &1);
}

#[test]
fn recursive_lower_bound_finds_prefix_sums() {
    // The smallest prefix whose sum reaches the target.
    let predicate = |left_value: &usize, value: &usize| *left_value >= *value;
    let g = |left_node: &usize, value: usize| value - *left_node;
    let nodes: Vec<Sum<usize>> = (0..10).map(|x| Sum::initialize(&x)).collect();
    let seg_tree = Recursive::build(&nodes);
    assert_eq!(seg_tree.lower_bound(predicate, g, 3), 2);
    let sums = vec![0, 1, 3, 6, 10, 15, 21, 28, 36, 45];
    for i in 0..10 {
        assert_eq!(seg_tree.lower_bound(predicate, g, sums[i]), i);
    }
}

#[test]
fn recursive_lower_bound_finds_first_reaching_max() {
    // The position of the first element at least as large as the target.
    let predicate = |left_value: &usize, value: &usize| *left_value >= *value;
    let g = |_left_node: &usize, value: usize| value;
    let nodes: Vec<Max<usize>> = (0..10).map(|x| Max::initialize(&x)).collect();
    let seg_tree = Recursive::build(&nodes);
    assert_eq!(seg_tree.lower_bound(predicate, g, 3), 3);
    for i in 0..10 {
        assert_eq!(seg_tree.lower_bound(predicate, g, i), i);
    }
}
