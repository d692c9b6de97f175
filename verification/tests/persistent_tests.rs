use seg_tree::nodes::Node;
use seg_tree::segment_tree::LazyPersistentSegmentTree;
use seg_tree::utils::{PersistentWrapper, Sum};
use seg_tree::{LazyPersistent, Persistent};

type PSum<T> = PersistentWrapper<Sum<T>>;

#[test]
fn persistent_non_empty_query_returns_some() {
    let nodes: Vec<Sum<usize>> = (0..=10).map(|x| Sum::initialize(&x)).collect();
    let segment_tree = Persistent::build(&nodes);
    assert!(segment_tree.query(0, 0, 10).is_some());
}

#[test]
fn persistent_empty_query_returns_none() {
    let nodes: Vec<Sum<usize>> = (0..=10).map(|x| Sum::initialize(&x)).collect();
    let segment_tree = Persistent::build(&nodes);
    assert!(segment_tree.query(0, 10, 0).is_none());
}

#[test]
fn persistent_normal_update_works() {
    let nodes: Vec<Sum<usize>> = (0..=10).map(|x| Sum::initialize(&x)).collect();
    let mut segment_tree = Persistent::build(&nodes);
    let value = 20;
    segment_tree.update(0, 0, &value);
    assert_eq!(segment_tree.query(1, 0, 0).unwrap().value(), &value);
}

#[test]
fn persistent_branched_update_works() {
    let nodes: Vec<Sum<usize>> = (0..=10).map(|x| Sum::initialize(&x)).collect();
    let mut segment_tree = Persistent::build(&nodes);
    let value = 20;
    segment_tree.update(0, 0, &value);
    segment_tree.update(0, 1, &value);
    assert_eq!(segment_tree.query(2, 0, 0).unwrap().value(), &0);
    assert_eq!(segment_tree.query(2, 1, 1).unwrap().value(), &value);
}

#[test]
fn persistent_query_works() {
    let nodes: Vec<Sum<usize>> = (0..=10).map(|x| Sum::initialize(&x)).collect();
    let segment_tree = Persistent::build(&nodes);
    assert_eq!(segment_tree.query(0, 0, 10).unwrap().value(), &55);
}

#[test]
fn lazy_persistent_non_empty_query_returns_some() {
    let nodes: Vec<Sum<usize>> = (0..=10).map(|x| Sum::initialize(&x)).collect();
    let mut segment_tree = LazyPersistent::build(&nodes);
    assert!(segment_tree.query(0, 0, 10).is_some());
}

#[test]
fn lazy_persistent_empty_query_returns_none() {
    let nodes: Vec<Sum<usize>> = (0..=10).map(|x| Sum::initialize(&x)).collect();
    let mut segment_tree = LazyPersistent::build(&nodes);
    assert!(segment_tree.query(0, 10, 0).is_none());
}

#[test]
fn lazy_persistent_normal_update_works() {
    let nodes: Vec<Sum<usize>> = (0..=10).map(|x| Sum::initialize(&x)).collect();
    let mut segment_tree = LazyPersistent::build(&nodes);
    let value = 20;
    segment_tree.update(0, 0, 0, &value);
    assert_eq!(segment_tree.query(1, 0, 0).unwrap().value(), &value);
}

#[test]
fn lazy_persistent_branched_update_works() {
    let nodes: Vec<Sum<usize>> = (0..=10).map(|x| Sum::initialize(&x)).collect();
    let mut segment_tree = LazyPersistent::build(&nodes);
    let value = 20;
    segment_tree.update(0, 0, 10, &value);
    segment_tree.update(0, 1, 1, &value);
    assert_eq!(segment_tree.query(2, 0, 0).unwrap().value(), &0);
    assert_eq!(segment_tree.query(2, 1, 1).unwrap().value(), &(value + 1));
}

#[test]
fn lazy_persistent_query_works() {
    let nodes: Vec<Sum<usize>> = (0..=10).map(|x| Sum::initialize(&x)).collect();
    let mut segment_tree = LazyPersistent::build(&nodes);
    assert_eq!(segment_tree.query(0, 0, 10).unwrap().value(), &55);
}

#[test]
fn persistent_lazy_non_empty_query_returns_some() {
    let nodes: Vec<PSum<usize>> = (0..=10).map(|x| PSum::initialize(&x)).collect();
    let mut segment_tree = LazyPersistentSegmentTree::build(&nodes);
    assert!(segment_tree.query(0, 0, 10).is_some());
}

#[test]
fn persistent_lazy_empty_query_returns_none() {
    let nodes: Vec<PSum<usize>> = (0..=10).map(|x| PSum::initialize(&x)).collect();
    let mut segment_tree = LazyPersistentSegmentTree::build(&nodes);
    assert!(segment_tree.query(0, 10, 0).is_none());
}

#[test]
fn persistent_lazy_normal_update_works() {
    let nodes: Vec<PSum<usize>> = (0..=10).map(|x| PSum::initialize(&x)).collect();
    let mut segment_tree = LazyPersistentSegmentTree::build(&nodes);
    let value = 20;
    segment_tree.update(0, 0, 0, value);
    assert_eq!(segment_tree.query(1, 0, 0).unwrap().value(), &value);
}

#[test]
fn persistent_lazy_branched_update_works() {
    let nodes: Vec<PSum<usize>> = (0..=10).map(|x| PSum::initialize(&x)).collect();
    let mut segment_tree = LazyPersistentSegmentTree::build(&nodes);
    let value = 20;
    segment_tree.update(0, 0, 10, value);
    segment_tree.update(0, 1, 1, value);
    assert_eq!(segment_tree.query(2, 0, 0).unwrap().value(), &0);
    assert_eq!(segment_tree.query(2, 1, 1).unwrap().value(), &(value + 1));
}

#[test]
fn persistent_lazy_query_works() {
    let nodes: Vec<PSum<usize>> = (0..=10).map(|x| PSum::initialize(&x)).collect();
    let mut segment_tree = LazyPersistentSegmentTree::build(&nodes);
    assert_eq!(segment_tree.query(0, 0, 10).unwrap().value(), &55);
}

#[test]
fn persistent_lazy_lower_bound_finds_prefix_sums() {
    let predicate = |left_value: &usize, value: &usize| *left_value >= *value;
    let g = |left_node: &usize, value: usize| value - *left_node;
    let nodes: Vec<PSum<usize>> = (0..10).map(|x| PSum::initialize(&x)).collect();
    let seg_tree = LazyPersistentSegmentTree::build(&nodes);
    let sums = vec![0, 1, 3, 6, 10, 15, 21, 28, 36, 45];
    for i in 0..10 {
        assert_eq!(seg_tree.lower_bound(0, predicate, g, sums[i]), i);
    }
}

#[test]
fn lazy_persistent_lower_bound_sees_pending_range_updates() {
    let predicate = |left_value: &usize, value: &usize| *left_value >= *value;
    let g = |left_node: &usize, value: usize| value - *left_node;
    let nodes: Vec<Sum<usize>> = (0..10).map(|x| Sum::initialize(&x)).collect();
    let mut seg_tree = LazyPersistent::build(&nodes);
    // Add 5 to each of [0, 9]: prefix sums shift by 5 * (length of prefix).
    seg_tree.update(0, 0, 9, &5);
    assert_eq!(seg_tree.lower_bound(1, predicate, g, 5), 0);
    assert_eq!(seg_tree.lower_bound(1, predicate, g, 11), 1);
}

#[test]
fn lazy_persistent_nested_range_updates_keep_full_sums() {
    // A range update over a version that still carries pending values must
    // not lose them: every visited slot is pushed (copy-then-push) before the
    // covered/uncovered decision, so recombination reads full summaries.
    let nodes: Vec<Sum<usize>> = (0..=10).map(|x| Sum::initialize(&x)).collect();
    let mut tree = LazyPersistent::build(&nodes);
    tree.update(0, 0, 10, &20);
    tree.update(1, 0, 0, &5);
    assert_eq!(*tree.query(2, 0, 10).unwrap().value(), 280);
    assert_eq!(*tree.query(1, 0, 10).unwrap().value(), 275);
    assert_eq!(*tree.query(2, 5, 10).unwrap().value(), 45 + 120);
}
