use crate::nodes::{adj, combine_associative, lazy_coherent, LazyNode, Node, PersistentNode};
use vstd::prelude::*;

verus! {

/// Wrapper granting any aggregator the [`PersistentNode`] capability by
/// storing the two child-slot indices beside it. If the wrapped node
/// implements [`LazyNode`] the wrapper forwards that capability transparently,
/// so one aggregator serves persistent and lazy-persistent engines alike.
#[derive(Clone, Copy)]
pub struct PersistentWrapper<T: Node> {
    node: T,
    left: usize,
    right: usize,
}

impl<T: Node> Node for PersistentWrapper<T> {
    type Value = <T as Node>::Value;

    closed spec fn spec_initialize(v: <T as Node>::Value) -> Self {
        PersistentWrapper { node: T::spec_initialize(v), left: 0, right: 0 }
    }

    closed spec fn spec_combine(a: Self, b: Self) -> Self {
        PersistentWrapper { node: T::spec_combine(a.node, b.node), left: 0, right: 0 }
    }

    closed spec fn spec_value(self) -> <T as Node>::Value {
        self.node.spec_value()
    }

    fn initialize(value: &<T as Node>::Value) -> (r: Self) {
        PersistentWrapper { node: T::initialize(value), left: 0, right: 0 }
    }

    fn combine(a: &Self, b: &Self) -> (r: Self) {
        PersistentWrapper { node: T::combine(&a.node, &b.node), left: 0, right: 0 }
    }

    fn value(&self) -> (r: &<T as Node>::Value) {
        self.node.value()
    }

    proof fn lemma_initialize_value(v: <T as Node>::Value) {
        T::lemma_initialize_value(v);
    }
}

impl<T: LazyNode> LazyNode for PersistentWrapper<T> {
    closed spec fn spec_lazy(self) -> Option<<T as Node>::Value> {
        self.node.spec_lazy()
    }

    closed spec fn spec_lazy_update(self, i: int, j: int) -> Self {
        PersistentWrapper {
            node: self.node.spec_lazy_update(i, j),
            left: self.left,
            right: self.right,
        }
    }

    closed spec fn spec_update_lazy_value(self, v: <T as Node>::Value) -> Self {
        PersistentWrapper {
            node: self.node.spec_update_lazy_value(v),
            left: self.left,
            right: self.right,
        }
    }

    fn lazy_update(&mut self, i: usize, j: usize) {
        self.node.lazy_update(i, j);
    }

    fn update_lazy_value(&mut self, new_value: &<T as Node>::Value) {
        self.node.update_lazy_value(new_value);
    }

    fn lazy_value(&self) -> (r: Option<&<T as Node>::Value>) {
        self.node.lazy_value()
    }

    proof fn lemma_lazy_update_clears(x: Self, i: int, j: int) {
        T::lemma_lazy_update_clears(x.node, i, j);
    }

    proof fn lemma_update_lazy_value_sets(x: Self, v: <T as Node>::Value) {
        T::lemma_update_lazy_value_sets(x.node, v);
    }

    proof fn lemma_lazy_update_noop(x: Self, i: int, j: int) {
        T::lemma_lazy_update_noop(x.node, i, j);
    }

    proof fn lemma_initialize_no_lazy(v: <T as Node>::Value) {
        T::lemma_initialize_no_lazy(v);
    }

    proof fn lemma_combine_no_lazy(a: Self, b: Self) {
        T::lemma_combine_no_lazy(a.node, b.node);
    }
}

impl<T: Node> PersistentNode for PersistentWrapper<T> {
    closed spec fn spec_left_child(self) -> usize {
        self.left
    }

    closed spec fn spec_right_child(self) -> usize {
        self.right
    }

    closed spec fn spec_set_children(self, left: usize, right: usize) -> Self {
        PersistentWrapper { node: self.node, left, right }
    }

    fn left_child(&self) -> (r: usize) {
        self.left
    }

    fn right_child(&self) -> (r: usize) {
        self.right
    }

    fn set_children(&mut self, left: usize, right: usize) {
        self.left = left;
        self.right = right;
    }

    proof fn lemma_set_children_stores(x: Self, left: usize, right: usize) {
    }

    proof fn lemma_set_children_keeps_value(x: Self, left: usize, right: usize) {
    }
}

/// `combine` of the persistence wrapper inherits associativity from the
/// wrapped aggregator.
pub proof fn lemma_persistent_wrapper_combine_associative<T: Node>()
    requires
        combine_associative::<T>(),
    ensures
        combine_associative::<PersistentWrapper<T>>(),
{
    assert forall|a: PersistentWrapper<T>, b: PersistentWrapper<T>, c: PersistentWrapper<T>|
        #[trigger] <PersistentWrapper<T> as Node>::spec_combine(
            <PersistentWrapper<T> as Node>::spec_combine(a, b),
            c,
        ) == <PersistentWrapper<T> as Node>::spec_combine(
            a,
            <PersistentWrapper<T> as Node>::spec_combine(b, c),
        ) by {
        assert(T::spec_combine(T::spec_combine(a.node, b.node), c.node) == T::spec_combine(
            a.node,
            T::spec_combine(b.node, c.node),
        ));
    }
}

/// The persistence wrapper forwards the lazy capability, so it inherits the
/// lazy coherence laws from the wrapped node.
pub proof fn lemma_persistent_wrapper_lazy_coherent<T: LazyNode>()
    requires
        lazy_coherent::<T>(),
    ensures
        lazy_coherent::<PersistentWrapper<T>>(),
{
    assert forall|x: PersistentWrapper<T>, v: <T as Node>::Value, i: int, j: int|
        (#[trigger] x.spec_update_lazy_value(v).spec_lazy_update(i, j)) == x.spec_lazy_update(
        i,
        j,
    ).spec_update_lazy_value(v).spec_lazy_update(i, j) by {
        assert(x.node.spec_update_lazy_value(v).spec_lazy_update(i, j) == x.node.spec_lazy_update(
            i,
            j,
        ).spec_update_lazy_value(v).spec_lazy_update(i, j));
    }
    assert forall|x: PersistentWrapper<T>, v: <T as Node>::Value, c: PersistentWrapper<T>|
        #![trigger adj(x.spec_update_lazy_value(v), c)]
        adj(x.spec_update_lazy_value(v), c) == adj(x, c).spec_update_lazy_value(v) by {
        assert(adj(x.node.spec_update_lazy_value(v), c.node) == adj(
            x.node,
            c.node,
        ).spec_update_lazy_value(v));
        match x.spec_update_lazy_value(v).spec_lazy() {
            Some(p) => {
                assert(adj(x.spec_update_lazy_value(v), c) == (PersistentWrapper {
                    node: c.node.spec_update_lazy_value(p),
                    ..c
                }));
            },
            None => {},
        }
        match x.spec_lazy() {
            Some(p) => {
                assert(adj(x, c) == (PersistentWrapper { node: c.node.spec_update_lazy_value(p), ..c }));
            },
            None => {},
        }
    }
}

} // verus!
