use crate::nodes::{adj, lazy_coherent, LazyNode, Node};
use vstd::prelude::*;

verus! {

/// The index value that stands for "no child recorded yet".
pub const NIL_INDEX: usize = usize::MAX;

/// A `usize` known not to equal the constant `N`. The persistent engines use
/// `NonNUsize<NIL_INDEX>` so that an optional child slot never confuses a real
/// arena index with the sentinel.
#[derive(Clone, Copy)]
pub struct NonNUsize<const N: usize> {
    value: usize,
}

impl<const N: usize> NonNUsize<N> {
    /// The index stored inside.
    pub closed spec fn spec_get(self) -> usize {
        self.value
    }

    /// Wraps `n`, refusing the reserved value `N`.
    pub fn new(n: usize) -> (r: Option<Self>)
        ensures
            r is Some <==> n != N,
            n != N ==> r is Some && r->0.spec_get() == n,
    {
        if n == N {
            None
        } else {
            Some(NonNUsize { value: n })
        }
    }

    /// Reads the index back.
    pub fn get(self) -> (r: usize)
        ensures
            r == self.spec_get(),
    {
        self.value
    }
}


/// An arena index that is never the sentinel [`NIL_INDEX`].
pub type IUsize = NonNUsize<NIL_INDEX>;

/// Wrapper the persistent engines put around the caller's aggregator: the
/// aggregator itself plus two optional child-slot indices into the engine's
/// arena. A freshly initialized or combined wrapper has no children recorded.
#[derive(Clone, Copy)]
pub struct PersistentWrapper<T> {
    node: T,
    left: Option<IUsize>,
    right: Option<IUsize>,
}

impl<T: Node> Node for PersistentWrapper<T> {
    type Value = <T as Node>::Value;

    closed spec fn spec_initialize(v: <T as Node>::Value) -> Self {
        PersistentWrapper { node: T::spec_initialize(v), left: None, right: None }
    }

    closed spec fn spec_combine(a: Self, b: Self) -> Self {
        PersistentWrapper { node: T::spec_combine(a.node, b.node), left: None, right: None }
    }

    closed spec fn spec_value(self) -> <T as Node>::Value {
        self.node.spec_value()
    }

    fn initialize(value: &<T as Node>::Value) -> (r: Self) {
        PersistentWrapper { node: T::initialize(value), left: None, right: None }
    }

    fn combine(a: &Self, b: &Self) -> (r: Self) {
        PersistentWrapper { node: T::combine(&a.node, &b.node), left: None, right: None }
    }

    fn value(&self) -> (r: &<T as Node>::Value) {
        self.node.value()
    }

    proof fn lemma_initialize_value(v: <T as Node>::Value) {
        T::lemma_initialize_value(v);
    }
}

impl<T: LazyNode> LazyNode for PersistentWrapper<T> {
    closed spec fn spec_lazy(self) -> Option<<T as Node>::Value> {
        self.node.spec_lazy()
    }

    closed spec fn spec_lazy_update(self, i: int, j: int) -> Self {
        PersistentWrapper { node: self.node.spec_lazy_update(i, j), ..self }
    }

    closed spec fn spec_update_lazy_value(self, v: <T as Node>::Value) -> Self {
        PersistentWrapper { node: self.node.spec_update_lazy_value(v), ..self }
    }

    fn lazy_update(&mut self, i: usize, j: usize) {
        self.node.lazy_update(i, j);
    }

    fn update_lazy_value(&mut self, new_value: &<T as Node>::Value) {
        self.node.update_lazy_value(new_value);
    }

    fn lazy_value(&self) -> (r: Option<&<T as Node>::Value>) {
        self.node.lazy_value()
    }

    proof fn lemma_lazy_update_clears(x: Self, i: int, j: int) {
        T::lemma_lazy_update_clears(x.node, i, j);
    }

    proof fn lemma_update_lazy_value_sets(x: Self, v: <T as Node>::Value) {
        T::lemma_update_lazy_value_sets(x.node, v);
    }

    proof fn lemma_lazy_update_noop(x: Self, i: int, j: int) {
        T::lemma_lazy_update_noop(x.node, i, j);
    }

    proof fn lemma_initialize_no_lazy(v: <T as Node>::Value) {
        T::lemma_initialize_no_lazy(v);
    }

    proof fn lemma_combine_no_lazy(a: Self, b: Self) {
        T::lemma_combine_no_lazy(a.node, b.node);
    }
}

impl<T> PersistentWrapper<T> {
    /// The wrapped aggregator.
    pub closed spec fn spec_inner(self) -> T {
        self.node
    }

    /// The recorded left child slot.
    pub closed spec fn spec_left(self) -> Option<IUsize> {
        self.left
    }

    /// The recorded right child slot.
    pub closed spec fn spec_right(self) -> Option<IUsize> {
        self.right
    }

    /// Wraps an aggregator with empty child slots.
    pub fn from_node(node: T) -> (r: Self)
        ensures
            r.spec_inner() == node,
            r.spec_left() is None,
            r.spec_right() is None,
    {
        PersistentWrapper { node, left: None, right: None }
    }

    /// Unwraps the aggregator, dropping the child slots.
    pub fn into_inner(self) -> (r: T)
        ensures
            r == self.spec_inner(),
    {
        self.node
    }

    /// The recorded left child slot, if any.
    pub fn left_child(&self) -> (r: Option<IUsize>)
        ensures
            r == self.spec_left(),
    {
        self.left
    }

    /// The recorded right child slot, if any.
    pub fn right_child(&self) -> (r: Option<IUsize>)
        ensures
            r == self.spec_right(),
    {
        self.right
    }

    /// Records both child slots; the reserved sentinel index turns into an
    /// empty slot.
    pub fn set_children(&mut self, left: usize, right: usize)
        ensures
            final(self).spec_inner() == old(self).spec_inner(),
            left != NIL_INDEX ==> final(self).spec_left() is Some
                && final(self).spec_left()->0.spec_get() == left,
            right != NIL_INDEX ==> final(self).spec_right() is Some
                && final(self).spec_right()->0.spec_get() == right,
    {
        self.right = IUsize::new(right);
        self.left = IUsize::new(left);
    }

    /// Borrows the wrapped aggregator.
    pub fn get_inner(&self) -> (r: &T)
        ensures
            *r == self.spec_inner(),
    {
        &self.node
    }
}


/// A combined wrapper holds the combined aggregator and empty child slots.
pub proof fn lemma_wrapper_combine<T: Node>(a: PersistentWrapper<T>, b: PersistentWrapper<T>)
    ensures
        <PersistentWrapper<T> as Node>::spec_combine(a, b).spec_inner() == T::spec_combine(
            a.spec_inner(),
            b.spec_inner(),
        ),
        <PersistentWrapper<T> as Node>::spec_combine(a, b).spec_left() is None,
        <PersistentWrapper<T> as Node>::spec_combine(a, b).spec_right() is None,
{
}



/// The wrapper's aggregated value is the wrapped aggregator's.
pub proof fn lemma_wrapper_value<T: Node>(a: PersistentWrapper<T>)
    ensures
        a.spec_value() == a.spec_inner().spec_value(),
{
}

/// Absorbing the pending value leaves both child slots alone.
pub proof fn lemma_wrapper_absorb_links<T: LazyNode>(a: PersistentWrapper<T>, i: int, j: int)
    ensures
        a.spec_lazy_update(i, j).spec_left() == a.spec_left(),
        a.spec_lazy_update(i, j).spec_right() == a.spec_right(),
{
}

/// Composing into the pending slot leaves both child slots alone.
pub proof fn lemma_wrapper_compose_links<T: LazyNode>(a: PersistentWrapper<T>, v: <T as Node>::Value)
    ensures
        a.spec_update_lazy_value(v).spec_left() == a.spec_left(),
        a.spec_update_lazy_value(v).spec_right() == a.spec_right(),
{
}

/// Pushing a value's pending into a child only composes into the child's
/// pending slot: the child's links survive.
pub proof fn lemma_adj_links<T: LazyNode>(x: PersistentWrapper<T>, c: PersistentWrapper<T>)
    ensures
        adj(x, c).spec_left() == c.spec_left(),
        adj(x, c).spec_right() == c.spec_right(),
{
    match x.spec_lazy() {
        Some(p) => {
            lemma_wrapper_compose_links(c, p);
        },
        None => {},
    }
}

/// How the forwarded lazy capability acts on the wrapper.
pub proof fn lemma_wrapper_lazy<T: LazyNode>(
    a: PersistentWrapper<T>,
    v: <T as Node>::Value,
    i: int,
    j: int,
)
    ensures
        a.spec_lazy() == a.spec_inner().spec_lazy(),
        a.spec_lazy_update(i, j).spec_inner() == a.spec_inner().spec_lazy_update(i, j),
        a.spec_lazy_update(i, j).spec_left() == a.spec_left(),
        a.spec_lazy_update(i, j).spec_right() == a.spec_right(),
        a.spec_update_lazy_value(v).spec_inner() == a.spec_inner().spec_update_lazy_value(v),
        a.spec_update_lazy_value(v).spec_left() == a.spec_left(),
        a.spec_update_lazy_value(v).spec_right() == a.spec_right(),
{
}

/// The arena wrapper forwards the lazy capability, so it inherits the lazy
/// coherence laws from the wrapped node.
pub proof fn lemma_arena_wrapper_lazy_coherent<T: LazyNode>()
    requires
        lazy_coherent::<T>(),
    ensures
        lazy_coherent::<PersistentWrapper<T>>(),
{
    assert forall|x: PersistentWrapper<T>, v: <T as Node>::Value, i: int, j: int|
        (#[trigger] x.spec_update_lazy_value(v).spec_lazy_update(i, j)) == x.spec_lazy_update(
        i,
        j,
    ).spec_update_lazy_value(v).spec_lazy_update(i, j) by {
        assert(x.node.spec_update_lazy_value(v).spec_lazy_update(i, j) == x.node.spec_lazy_update(
            i,
            j,
        ).spec_update_lazy_value(v).spec_lazy_update(i, j));
    }
    assert forall|x: PersistentWrapper<T>, v: <T as Node>::Value, c: PersistentWrapper<T>|
        #![trigger adj(x.spec_update_lazy_value(v), c)]
        adj(x.spec_update_lazy_value(v), c) == adj(x, c).spec_update_lazy_value(v) by {
        assert(adj(x.node.spec_update_lazy_value(v), c.node) == adj(
            x.node,
            c.node,
        ).spec_update_lazy_value(v));
        match x.spec_update_lazy_value(v).spec_lazy() {
            Some(p) => {
                assert(adj(x.spec_update_lazy_value(v), c) == (PersistentWrapper {
                    node: c.node.spec_update_lazy_value(p),
                    ..c
                }));
            },
            None => {},
        }
        match x.spec_lazy() {
            Some(p) => {
                assert(adj(x, c) == (PersistentWrapper { node: c.node.spec_update_lazy_value(p), ..c }));
            },
            None => {},
        }
    }
}

} // verus!
