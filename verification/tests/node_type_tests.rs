use rand::{prelude::SliceRandom, thread_rng};
use seg_tree::nodes::{LazyNode, Node};
use seg_tree::utils::{LazySetWrapper, Max, MaxSubArraySum, Min};

type LSMin<T> = LazySetWrapper<Min<T>>;

#[test]
fn min_works() {
    let nodes: Vec<Min<usize>> = (0..=1_000_000).map(|x| Min::initialize(&x)).collect();
    let result = nodes
        .iter()
        .fold(Min::initialize(&0), |acc, new| Min::combine(&acc, new));
    assert_eq!(result.value(), &0);
}

#[test]
fn max_works() {
    let nodes: Vec<Max<usize>> = (0..=1_000_000).map(|x| Max::initialize(&x)).collect();
    let result = nodes
        .iter()
        .fold(Max::initialize(&0), |acc, new| Max::combine(&acc, new));
    assert_eq!(result.value(), &1_000_000);
}

#[test]
fn max_sub_array_sum_works() {
    let mut rng = thread_rng();
    let n = 1_000_000 / 2;
    let mut nodes: Vec<_> = (-n..=n).collect();
    nodes.shuffle(&mut rng);
    // Kadane's algorithm gives the expected maximum subarray sum.
    let expected_answer = {
        let mut best_sum = 0;
        let mut current_sum = 0;
        for val in &nodes {
            current_sum = 0.max(current_sum + val);
            best_sum = best_sum.max(current_sum);
        }
        best_sum
    };
    let nodes: Vec<MaxSubArraySum> = nodes
        .into_iter()
        .map(|x| MaxSubArraySum::initialize(&x))
        .collect();
    let result = nodes
        .iter()
        .fold(MaxSubArraySum::initialize(&0), |acc, new| {
            MaxSubArraySum::combine(&acc, new)
        });
    assert_eq!(result.value(), &expected_answer);
}

#[test]
fn lazy_set_wrapper_update_lazy_value_works() {
    let mut node: LSMin<usize> = LSMin::initialize(&1);
    node.update_lazy_value(&2);
    assert_eq!(node.lazy_value(), Some(&2));
}

#[test]
fn lazy_set_wrapper_lazy_update_works() {
    // Node represents the range [0,10] with min 1.
    let mut node: LSMin<usize> = LSMin::initialize(&1);
    node.update_lazy_value(&2);
    node.lazy_update(0, 10);
    assert_eq!(node.value(), &2);
}
