use seg_tree::nodes::Node;
use seg_tree::utils::MaxSubArraySum;
use seg_tree::Recursive;
use seg_tree::utils::Min;
use seg_tree::Iterative;

#[test]
fn non_empty_query_returns_some() {
    let nodes: Vec<Min<usize>> = (0..=10).map(|x| Min::initialize(&x)).collect();
    let segment_tree = Iterative::build(&nodes);
    assert!(segment_tree.query(0, 10).is_some());
}

#[test]
fn empty_query_returns_none() {
    let nodes: Vec<Min<usize>> = (0..=10).map(|x| Min::initialize(&x)).collect();
    let segment_tree = Iterative::build(&nodes);
    assert!(segment_tree.query(10, 0).is_none());
}

#[test]
fn update_works() {
    let nodes: Vec<Min<usize>> = (0..=10).map(|x| Min::initialize(&x)).collect();
    let mut segment_tree = Iterative::build(&nodes);
    let value = 20;
    segment_tree.update(0, &value);
    assert_eq!(segment_tree.query(0, 0).unwrap().value(), &value);
}

#[test]
fn query_works() {
    let nodes: Vec<Min<usize>> = (0..=10).map(|x| Min::initialize(&x)).collect();
    let segment_tree = Iterative::build(&nodes);
    for i in 0..10 {
        assert_eq!(segment_tree.query(i, 10).unwrap().value(), &i);
    }
}

#[test]
fn iterative_matches_recursive_for_value_caching_nodes() {
    // The iterative walk folds the boundary nodes themselves, so aggregators
    // with cached derived fields answer exactly like the recursive engine.
    let data: Vec<i64> = vec![3, -5, 2, 2, -1, 4, -3, 1, 2, -2, 1];
    let nodes: Vec<MaxSubArraySum> = data.iter().map(MaxSubArraySum::initialize).collect();
    let iterative = Iterative::build(&nodes);
    let recursive = Recursive::build(&nodes);
    for l in 0..data.len() {
        for r in l..data.len() {
            assert_eq!(
                iterative.query(l, r).unwrap().value(),
                recursive.query(l, r).unwrap().value()
            );
        }
    }
}
