use crate::nodes::{adj, combine_associative, lazy_coherent, lazy_splittable, LazyNode, Node, PersistentNode};
use vstd::prelude::*;

verus! {

/// Wrapper granting any aggregator the [`LazyNode`] capability with "set the
/// range to a value" semantics: absorbing a pending `v` replaces the wrapped
/// node with `initialize(v)`, and composing a new pending value overwrites the
/// old one outright. If the wrapped node implements [`PersistentNode`] the
/// wrapper forwards that capability too.
#[derive(Clone, Copy)]
pub struct LazySetWrapper<T: Node> {
    node: T,
    lazy_value: Option<<T as Node>::Value>,
}

impl<T: Node> Node for LazySetWrapper<T> {
    type Value = <T as Node>::Value;

    closed spec fn spec_initialize(v: <T as Node>::Value) -> Self {
        LazySetWrapper { node: T::spec_initialize(v), lazy_value: None }
    }

    closed spec fn spec_combine(a: Self, b: Self) -> Self {
        LazySetWrapper { node: T::spec_combine(a.node, b.node), lazy_value: None }
    }

    closed spec fn spec_value(self) -> <T as Node>::Value {
        self.node.spec_value()
    }

    fn initialize(value: &<T as Node>::Value) -> (r: Self) {
        LazySetWrapper { node: T::initialize(value), lazy_value: None }
    }

    fn combine(a: &Self, b: &Self) -> (r: Self) {
        LazySetWrapper { node: T::combine(&a.node, &b.node), lazy_value: None }
    }

    fn value(&self) -> (r: &<T as Node>::Value) {
        self.node.value()
    }

    proof fn lemma_initialize_value(v: <T as Node>::Value) {
        T::lemma_initialize_value(v);
    }
}

impl<T: Node> LazyNode for LazySetWrapper<T> {
    closed spec fn spec_lazy(self) -> Option<<T as Node>::Value> {
        self.lazy_value
    }

    closed spec fn spec_lazy_update(self, i: int, j: int) -> Self {
        match self.lazy_value {
            Some(v) => LazySetWrapper { node: T::spec_initialize(v), lazy_value: None },
            None => self,
        }
    }

    closed spec fn spec_update_lazy_value(self, v: <T as Node>::Value) -> Self {
        LazySetWrapper { node: self.node, lazy_value: Some(v) }
    }

    fn lazy_update(&mut self, i: usize, j: usize) {
        match self.lazy_value {
            Some(v) => {
                self.node = T::initialize(&v);
                self.lazy_value = None;
            },
            None => {},
        }
    }

    fn update_lazy_value(&mut self, new_value: &<T as Node>::Value) {
        self.lazy_value = Some(*new_value);
    }

    fn lazy_value(&self) -> (r: Option<&<T as Node>::Value>) {
        self.lazy_value.as_ref()
    }

    proof fn lemma_lazy_update_clears(x: Self, i: int, j: int) {
    }

    proof fn lemma_update_lazy_value_sets(x: Self, v: <T as Node>::Value) {
    }

    proof fn lemma_lazy_update_noop(x: Self, i: int, j: int) {
    }

    proof fn lemma_initialize_no_lazy(v: <T as Node>::Value) {
    }

    proof fn lemma_combine_no_lazy(a: Self, b: Self) {
    }
}

impl<T: PersistentNode> PersistentNode for LazySetWrapper<T> {
    closed spec fn spec_left_child(self) -> usize {
        self.node.spec_left_child()
    }

    closed spec fn spec_right_child(self) -> usize {
        self.node.spec_right_child()
    }

    closed spec fn spec_set_children(self, left: usize, right: usize) -> Self {
        LazySetWrapper { node: self.node.spec_set_children(left, right), lazy_value: self.lazy_value }
    }

    fn left_child(&self) -> (r: usize) {
        self.node.left_child()
    }

    fn right_child(&self) -> (r: usize) {
        self.node.right_child()
    }

    fn set_children(&mut self, left: usize, right: usize) {
        self.node.set_children(left, right);
    }

    proof fn lemma_set_children_stores(x: Self, left: usize, right: usize) {
        T::lemma_set_children_stores(x.node, left, right);
    }

    proof fn lemma_set_children_keeps_value(x: Self, left: usize, right: usize) {
        T::lemma_set_children_keeps_value(x.node, left, right);
    }
}

/// `combine` of the set-lazy wrapper inherits associativity from the wrapped
/// aggregator.
pub proof fn lemma_lazy_set_wrapper_combine_associative<T: Node>()
    requires
        combine_associative::<T>(),
    ensures
        combine_associative::<LazySetWrapper<T>>(),
{
    assert forall|a: LazySetWrapper<T>, b: LazySetWrapper<T>, c: LazySetWrapper<T>|
        #[trigger] <LazySetWrapper<T> as Node>::spec_combine(
            <LazySetWrapper<T> as Node>::spec_combine(a, b),
            c,
        ) == <LazySetWrapper<T> as Node>::spec_combine(
            a,
            <LazySetWrapper<T> as Node>::spec_combine(b, c),
        ) by {
        assert(T::spec_combine(T::spec_combine(a.node, b.node), c.node) == T::spec_combine(
            a.node,
            T::spec_combine(b.node, c.node),
        ));
    }
}

/// The set-lazy wrapper obeys the lazy coherence laws outright: overwriting
/// the pending slot commutes with absorbing in exactly the required way.
pub proof fn lemma_lazy_set_wrapper_coherent<T: Node>()
    ensures
        lazy_coherent::<LazySetWrapper<T>>(),
{
    assert forall|x: LazySetWrapper<T>, v: <T as Node>::Value, i: int, j: int|
        (#[trigger] x.spec_update_lazy_value(v).spec_lazy_update(i, j)) == x.spec_lazy_update(
        i,
        j,
    ).spec_update_lazy_value(v).spec_lazy_update(i, j) by {
        assert(x.spec_update_lazy_value(v).spec_lazy_update(i, j) == (LazySetWrapper {
            node: T::spec_initialize(v),
            lazy_value: None,
        }));
    }
    assert forall|x: LazySetWrapper<T>, v: <T as Node>::Value, c: LazySetWrapper<T>|
        #![trigger adj(x.spec_update_lazy_value(v), c)]
        adj(x.spec_update_lazy_value(v), c) == adj(x, c).spec_update_lazy_value(v) by {
        assert(adj(x.spec_update_lazy_value(v), c) == (LazySetWrapper {
            node: c.node,
            lazy_value: Some(v),
        }));
        assert(adj(x, c).spec_update_lazy_value(v) == (LazySetWrapper {
            node: c.node,
            lazy_value: Some(v),
        }));
    }
}

/// When combining two equal freshly initialized nodes reproduces that node
/// (as it does for minimum- and maximum-style aggregators), the set-lazy
/// wrapper obeys the splitting law: painting a combined range and painting
/// its two halves agree.
pub proof fn lemma_lazy_set_wrapper_splittable<T: Node>()
    requires
        forall|v: <T as Node>::Value|
            T::spec_combine(#[trigger] T::spec_initialize(v), T::spec_initialize(v))
                == T::spec_initialize(v),
    ensures
        lazy_splittable::<LazySetWrapper<T>>(),
{
    assert forall|a: LazySetWrapper<T>, b: LazySetWrapper<T>, v: <T as Node>::Value, i: int, m: int, j: int|
        #![trigger
            <LazySetWrapper<T> as Node>::spec_combine(a, b).spec_update_lazy_value(v).spec_lazy_update(i, j),
            a.spec_update_lazy_value(v).spec_lazy_update(i, m)
        ]
        i <= m < j && j - i < usize::MAX && a.spec_lazy() is None && b.spec_lazy() is None implies <LazySetWrapper<T> as Node>::spec_combine(
        a,
        b,
    ).spec_update_lazy_value(v).spec_lazy_update(i, j) == <LazySetWrapper<T> as Node>::spec_combine(
        a.spec_update_lazy_value(v).spec_lazy_update(i, m),
        b.spec_update_lazy_value(v).spec_lazy_update(m + 1, j),
    ) by {
        assert(a.spec_update_lazy_value(v).spec_lazy_update(i, m) == (LazySetWrapper {
            node: T::spec_initialize(v),
            lazy_value: None,
        }));
        assert(b.spec_update_lazy_value(v).spec_lazy_update(m + 1, j) == (LazySetWrapper {
            node: T::spec_initialize(v),
            lazy_value: None,
        }));
        assert(T::spec_combine(T::spec_initialize(v), T::spec_initialize(v)) == T::spec_initialize(v));
    }
}

/// The meaning of the set-lazy wrapper, over its public accessors: staging
/// overwrites the pending slot outright and leaves the value alone, and
/// absorbing replaces the wrapped node with one initialized from the pending
/// value ("paint the range").
pub proof fn lemma_lazy_set_wrapper_semantics<T: Node>(
    x: LazySetWrapper<T>,
    v: <T as Node>::Value,
    i: int,
    j: int,
)
    ensures
        x.spec_update_lazy_value(v).spec_value() == x.spec_value(),
        x.spec_update_lazy_value(v).spec_lazy() == Some(v),
        x.spec_lazy_update(i, j) == match x.spec_lazy() {
            Some(p) => LazySetWrapper::spec_initialize(p),
            None => x,
        },
{
}

} // verus!
