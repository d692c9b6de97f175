use seg_tree::default::Sum;
use seg_tree::nodes::{AddValue, LazyNode, Node};

#[derive(Clone, Copy, Debug, PartialEq)]
struct NonCommutativeTest(u64);

/// It satisfies a + b == b.
impl AddValue for NonCommutativeTest {
    fn spec_add_value(self, other: Self) -> Self {
        other
    }

    fn spec_scale(self, _k: usize) -> Self {
        self
    }

    fn add_value(self, other: Self) -> Self {
        other
    }

    fn scale(self, _k: usize) -> Self {
        self
    }
}

#[test]
fn sum_sum_works() {
    let nodes: Vec<Sum<usize>> = (0..=1000000).map(|x| Sum::initialize(&x)).collect();
    let result = nodes
        .iter()
        .fold(Sum::initialize(&0), |acc, new| Sum::combine(&acc, new));
    assert_eq!(result.value(), &500000500000);
}

#[test]
fn sum_non_commutative_sum_works() {
    let nodes: Vec<Sum<NonCommutativeTest>> = (0..=1000000)
        .map(|x| Sum::initialize(&NonCommutativeTest(x)))
        .collect();
    let result = nodes
        .iter()
        .fold(Sum::initialize(&NonCommutativeTest(0)), |acc, new| {
            Sum::combine(&acc, new)
        });
    assert_eq!(result.value(), &NonCommutativeTest(1000000));
}

#[test]
fn sum_update_lazy_value_works() {
    let mut node: Sum<usize> = Sum::initialize(&1);
    node.update_lazy_value(&2);
    assert_eq!(node.lazy_value(), Some(&2));
}

#[test]
fn sum_lazy_update_works() {
    // Node represents the range [0,10] with sum 1.
    let mut node: Sum<usize> = Sum::initialize(&1);
    node.update_lazy_value(&2);
    node.lazy_update(0, 10);
    assert_eq!(node.value(), &23);
}

#[test]
fn sum_non_commutative_update_lazy_value_works() {
    let mut node = Sum::initialize(&NonCommutativeTest(1));
    node.update_lazy_value(&NonCommutativeTest(2));
    assert_eq!(node.lazy_value(), Some(&NonCommutativeTest(2)));
}

#[test]
fn sum_non_commutative_lazy_update_works() {
    // Node represents the range [0,10] with sum 1.
    let mut node = Sum::initialize(&NonCommutativeTest(1));
    node.update_lazy_value(&NonCommutativeTest(2));
    node.lazy_update(0, 10);
    assert_eq!(node.value(), &NonCommutativeTest(2));
}
