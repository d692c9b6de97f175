use rand::Rng;
use seg_tree::internal_utils::persistent_utils::PersistentWrapper as ArenaWrapper;
use seg_tree::nodes::{Node, PersistentNode};
use seg_tree::utils::{Max, MaxSubArraySum, Min, PersistentWrapper, Sum};
use seg_tree::{Iterative, LazyPersistent, LazyRecursive, Persistent, Recursive};

#[test]
fn sum_combine_is_associative_on_random_triples() {
    let mut rng = rand::thread_rng();
    for _ in 0..1000 {
        let a: Sum<u64> = Sum::initialize(&rng.gen());
        let b: Sum<u64> = Sum::initialize(&rng.gen());
        let c: Sum<u64> = Sum::initialize(&rng.gen());
        let left = Sum::combine(&Sum::combine(&a, &b), &c);
        let right = Sum::combine(&a, &Sum::combine(&b, &c));
        assert_eq!(left.value(), right.value());
    }
}

#[test]
fn min_and_max_combine_are_associative_on_random_triples() {
    let mut rng = rand::thread_rng();
    for _ in 0..1000 {
        let a: Min<i64> = Min::initialize(&rng.gen());
        let b: Min<i64> = Min::initialize(&rng.gen());
        let c: Min<i64> = Min::initialize(&rng.gen());
        let left = Min::combine(&Min::combine(&a, &b), &c);
        let right = Min::combine(&a, &Min::combine(&b, &c));
        assert_eq!(left.value(), right.value());
        let a: Max<u64> = Max::initialize(&rng.gen());
        let b: Max<u64> = Max::initialize(&rng.gen());
        let c: Max<u64> = Max::initialize(&rng.gen());
        let left = Max::combine(&Max::combine(&a, &b), &c);
        let right = Max::combine(&a, &Max::combine(&b, &c));
        assert_eq!(left.value(), right.value());
    }
}

#[test]
fn max_subarray_sum_combine_is_associative_on_random_triples() {
    let mut rng = rand::thread_rng();
    for _ in 0..1000 {
        let a = MaxSubArraySum::initialize(&rng.gen_range(-1000..1000));
        let b = MaxSubArraySum::initialize(&rng.gen_range(-1000..1000));
        let c = MaxSubArraySum::initialize(&rng.gen_range(-1000..1000));
        let left = MaxSubArraySum::combine(&MaxSubArraySum::combine(&a, &b), &c);
        let right = MaxSubArraySum::combine(&a, &MaxSubArraySum::combine(&b, &c));
        assert_eq!(left.value(), right.value());
    }
}

#[test]
fn build_gives_back_every_leaf() {
    let nodes: Vec<Sum<usize>> = (0..=10).map(|x| Sum::initialize(&x)).collect();
    let recursive = Recursive::build(&nodes);
    let iterative = Iterative::build(&nodes);
    for i in 0..=10 {
        assert_eq!(recursive.query(i, i).unwrap().value(), &i);
        assert_eq!(iterative.query(i, i).unwrap().value(), &i);
    }
}

#[test]
fn point_update_leaves_other_positions_alone() {
    let nodes: Vec<Sum<usize>> = (0..=10).map(|x| Sum::initialize(&x)).collect();
    let mut recursive = Recursive::build(&nodes);
    let mut iterative = Iterative::build(&nodes);
    let value = 7;
    recursive.update(4, &value);
    iterative.update(4, &value);
    for i in 0..=10 {
        let expected = if i == 4 { value } else { i };
        assert_eq!(recursive.query(i, i).unwrap().value(), &expected);
        assert_eq!(iterative.query(i, i).unwrap().value(), &expected);
    }
}

#[test]
fn empty_range_queries_return_none_for_all_engines() {
    let nodes: Vec<Sum<usize>> = (0..=10).map(|x| Sum::initialize(&x)).collect();
    let recursive = Recursive::build(&nodes);
    let iterative = Iterative::build(&nodes);
    let mut lazy = LazyRecursive::build(&nodes);
    let persistent = Persistent::build(&nodes);
    let mut lazy_persistent = LazyPersistent::build(&nodes);
    for l in 0..=10usize {
        for r in 0..l {
            assert!(recursive.query(l, r).is_none());
            assert!(iterative.query(l, r).is_none());
            assert!(lazy.query(l, r).is_none());
            assert!(persistent.query(0, l, r).is_none());
            assert!(lazy_persistent.query(0, l, r).is_none());
        }
    }
}

#[test]
fn sum_tree_scenario_totals_and_lazy_range_add() {
    // A sum tree over the values 0..=10 answers 55 for the whole range.
    let nodes: Vec<Sum<usize>> = (0..=10).map(|x| Sum::initialize(&x)).collect();
    let recursive = Recursive::build(&nodes);
    assert_eq!(recursive.query(0, 10).unwrap().value(), &55);
    let iterative = Iterative::build(&nodes);
    assert_eq!(iterative.query(0, 10).unwrap().value(), &55);
    // Adding 20 to each of [0, 9] on a lazy sum tree makes sum(0, 1) == 41.
    let mut lazy = LazyRecursive::build(&nodes);
    let twenty = 20;
    lazy.update(0, 9, &twenty);
    assert_eq!(lazy.query(0, 1).unwrap().value(), &41);
    // Point-updating index 0 to 20 on a min tree makes min(0, 0) == 20.
    let mins: Vec<Min<usize>> = (0..=10).map(|x| Min::initialize(&x)).collect();
    let mut min_tree = Recursive::build(&mins);
    min_tree.update(0, &twenty);
    assert_eq!(min_tree.query(0, 0).unwrap().value(), &twenty);
}

#[test]
fn persistent_branch_scenario_keeps_versions_independent() {
    // Build a sum tree over 0..=10, add 20 over [0,10] from version 0, then
    // add 20 at [1,1] again from version 0: the second branch sees only one
    // of the additions.
    let nodes: Vec<Sum<usize>> = (0..=10).map(|x| Sum::initialize(&x)).collect();
    let mut tree = LazyPersistent::build(&nodes);
    tree.update(0, 0, 10, &20);
    tree.update(0, 1, 1, &20);
    assert_eq!(tree.query(2, 0, 0).unwrap().value(), &0);
    assert_eq!(tree.query(2, 1, 1).unwrap().value(), &21);
    assert_eq!(tree.versions(), 3);
}

#[test]
fn old_versions_answer_as_before_any_update() {
    let nodes: Vec<Sum<usize>> = (0..=10).map(|x| Sum::initialize(&x)).collect();
    let mut tree = Persistent::build(&nodes);
    let mut before = Vec::new();
    for l in 0..=10usize {
        for r in l..=10usize {
            before.push(*tree.query(0, l, r).unwrap().value());
        }
    }
    tree.update(0, 3, &100);
    tree.update(1, 7, &200);
    let mut idx = 0;
    for l in 0..=10usize {
        for r in l..=10usize {
            assert_eq!(*tree.query(0, l, r).unwrap().value(), before[idx]);
            idx += 1;
        }
    }
    assert_eq!(tree.versions(), 3);
}

#[test]
fn queries_never_add_versions_to_lazy_persistent_trees() {
    let nodes: Vec<Sum<usize>> = (0..=10).map(|x| Sum::initialize(&x)).collect();
    let mut tree = LazyPersistent::build(&nodes);
    tree.update(0, 0, 10, &5);
    assert_eq!(tree.versions(), 2);
    for l in 0..=10usize {
        for r in l..=10usize {
            tree.query(1, l, r);
        }
    }
    assert_eq!(tree.versions(), 2);
}

#[test]
fn persistent_lower_bound_finds_prefix_sums() {
    let predicate = |left_value: &usize, value: &usize| *left_value >= *value;
    let g = |left_node: &usize, value: usize| value - *left_node;
    let nodes: Vec<Sum<usize>> = (0..10).map(|x| Sum::initialize(&x)).collect();
    let seg_tree = Persistent::build(&nodes);
    let sums = vec![0, 1, 3, 6, 10, 15, 21, 28, 36, 45];
    for i in 0..10 {
        assert_eq!(seg_tree.lower_bound(0, predicate, g, sums[i]), i);
    }
    let mut lazy_tree = LazyPersistent::build(&nodes);
    for i in 0..10 {
        assert_eq!(lazy_tree.lower_bound(0, predicate, g, sums[i]), i);
    }
}

#[test]
fn persistent_wrapper_records_children() {
    let mut wrapped: PersistentWrapper<Sum<usize>> = PersistentWrapper::initialize(&9);
    assert_eq!(wrapped.value(), &9);
    wrapped.set_children(1, 2);
    assert_eq!(wrapped.left_child(), 1);
    assert_eq!(wrapped.right_child(), 2);
}

#[test]
fn arena_wrapper_round_trips_the_inner_node() {
    let mut w = ArenaWrapper::from_node(Sum::<usize>::initialize(&9));
    assert_eq!(w.get_inner().value(), &9);
    assert!(w.left_child().is_none());
    assert!(w.right_child().is_none());
    w.set_children(1, 2);
    assert_eq!(w.left_child().unwrap().get(), 1);
    assert_eq!(w.right_child().unwrap().get(), 2);
    assert_eq!(w.into_inner().value(), &9);
}
