use crate::nodes::{adj, combine_associative, lazy_coherent, lazy_splittable, AddValue, LazyNode, Node, PersistentNode};
use vstd::prelude::*;

verus! {

/// Range-sum node over any [`AddValue`] element type that implements [`Node`],
/// [`LazyNode`] and [`PersistentNode`], so it can be used in every segment
/// tree variant without a wrapper. The lazy update adds its value to each
/// element of the range; pending values compose left-to-right (`p + v`).
#[derive(Clone, Copy)]
pub struct Sum<T: AddValue> {
    value: T,
    lazy_value: Option<T>,
    left: usize,
    right: usize,
}

impl<T: AddValue> Node for Sum<T> {
    type Value = T;

    closed spec fn spec_initialize(v: T) -> Self {
        Sum { value: v, lazy_value: None, left: 0, right: 0 }
    }

    closed spec fn spec_combine(a: Self, b: Self) -> Self {
        Sum { value: a.value.spec_add_value(b.value), lazy_value: None, left: 0, right: 0 }
    }

    closed spec fn spec_value(self) -> T {
        self.value
    }

    /// The node is initialized with the value given.
    fn initialize(v: &T) -> (r: Self) {
        Sum { value: *v, lazy_value: None, left: 0, right: 0 }
    }

    /// As this is a range-sum node, the merging operation is `+`.
    fn combine(a: &Self, b: &Self) -> (r: Self) {
        Sum { value: a.value.add_value(b.value), lazy_value: None, left: 0, right: 0 }
    }

    fn value(&self) -> (r: &T) {
        &self.value
    }

    proof fn lemma_initialize_value(v: T) {
    }
}

impl<T: AddValue> LazyNode for Sum<T> {
    closed spec fn spec_lazy(self) -> Option<T> {
        self.lazy_value
    }

    closed spec fn spec_lazy_update(self, i: int, j: int) -> Self {
        match self.lazy_value {
            Some(v) => Sum {
                value: self.value.spec_add_value(v.spec_scale((j - i + 1) as usize)),
                lazy_value: None,
                left: self.left,
                right: self.right,
            },
            None => self,
        }
    }

    closed spec fn spec_update_lazy_value(self, v: T) -> Self {
        match self.lazy_value {
            Some(p) => Sum { lazy_value: Some(p.spec_add_value(v)), ..self },
            None => Sum { lazy_value: Some(v), ..self },
        }
    }

    fn lazy_update(&mut self, i: usize, j: usize) {
        match self.lazy_value {
            Some(v) => {
                self.value = self.value.add_value(v.scale(j - i + 1));
                self.lazy_value = None;
            },
            None => {},
        }
    }

    fn update_lazy_value(&mut self, new_value: &T) {
        match self.lazy_value {
            Some(p) => {
                self.lazy_value = Some(p.add_value(*new_value));
            },
            None => {
                self.lazy_value = Some(*new_value);
            },
        }
    }

    fn lazy_value(&self) -> (r: Option<&T>) {
        self.lazy_value.as_ref()
    }

    proof fn lemma_lazy_update_clears(x: Self, i: int, j: int) {
    }

    proof fn lemma_update_lazy_value_sets(x: Self, v: T) {
    }

    proof fn lemma_lazy_update_noop(x: Self, i: int, j: int) {
    }

    proof fn lemma_initialize_no_lazy(v: T) {
    }

    proof fn lemma_combine_no_lazy(a: Self, b: Self) {
    }
}

impl<T: AddValue> PersistentNode for Sum<T> {
    closed spec fn spec_left_child(self) -> usize {
        self.left
    }

    closed spec fn spec_right_child(self) -> usize {
        self.right
    }

    closed spec fn spec_set_children(self, left: usize, right: usize) -> Self {
        Sum { left, right, ..self }
    }

    fn left_child(&self) -> (r: usize) {
        self.left
    }

    fn right_child(&self) -> (r: usize) {
        self.right
    }

    fn set_children(&mut self, left: usize, right: usize) {
        self.left = left;
        self.right = right;
    }

    proof fn lemma_set_children_stores(x: Self, left: usize, right: usize) {
    }

    proof fn lemma_set_children_keeps_value(x: Self, left: usize, right: usize) {
    }
}

/// When the element addition is associative, so is `Sum`'s `combine`.
pub proof fn lemma_sum_combine_associative<T: AddValue>()
    requires
        forall|x: T, y: T, z: T|
            #[trigger] x.spec_add_value(y).spec_add_value(z) == x.spec_add_value(
                y.spec_add_value(z),
            ),
    ensures
        combine_associative::<Sum<T>>(),
{
}

/// When the element addition is associative and scaling distributes over it,
/// the additive `Sum` node obeys the lazy coherence laws.
pub proof fn lemma_sum_lazy_coherent<T: AddValue>()
    requires
        forall|x: T, y: T, z: T|
            #[trigger] x.spec_add_value(y).spec_add_value(z) == x.spec_add_value(
                y.spec_add_value(z),
            ),
        forall|x: T, y: T, kk: usize|
            (#[trigger] x.spec_add_value(y).spec_scale(kk)) == x.spec_scale(kk).spec_add_value(
                y.spec_scale(kk),
            ),
    ensures
        lazy_coherent::<Sum<T>>(),
{
    assert forall|x: Sum<T>, v: T, i: int, j: int|
        (#[trigger] x.spec_update_lazy_value(v).spec_lazy_update(i, j)) == x.spec_lazy_update(
        i,
        j,
    ).spec_update_lazy_value(v).spec_lazy_update(i, j) by {
        match x.lazy_value {
            Some(p) => {
                assert(p.spec_add_value(v).spec_scale((j - i + 1) as usize) == p.spec_scale(
                    (j - i + 1) as usize,
                ).spec_add_value(v.spec_scale((j - i + 1) as usize)));
            },
            None => {},
        }
    }
    assert forall|x: Sum<T>, v: T, c: Sum<T>|
        #![trigger adj(x.spec_update_lazy_value(v), c)]
        adj(x.spec_update_lazy_value(v), c) == adj(x, c).spec_update_lazy_value(v) by {
        assert(adj(x, c).spec_update_lazy_value(v).lazy_value == adj(
            x.spec_update_lazy_value(v),
            c,
        ).lazy_value);
    }
}


/// When the element addition is commutative and associative and scaling
/// splits over a sum of repetition counts, the additive `Sum` node obeys the
/// splitting law: adding `v` over a combined range and adding it over the two
/// halves agree.
pub proof fn lemma_sum_lazy_splittable<T: AddValue>()
    requires
        forall|x: T, y: T, z: T|
            #[trigger] x.spec_add_value(y).spec_add_value(z) == x.spec_add_value(
                y.spec_add_value(z),
            ),
        forall|x: T, y: T| #[trigger] x.spec_add_value(y) == y.spec_add_value(x),
        forall|v: T, k1: usize, k2: usize|
            #![trigger v.spec_scale(k1).spec_add_value(v.spec_scale(k2))]
            1 <= k1 && 1 <= k2 && k1 + k2 <= usize::MAX ==> v.spec_scale((k1 + k2) as usize)
                == v.spec_scale(k1).spec_add_value(v.spec_scale(k2)),
    ensures
        lazy_splittable::<Sum<T>>(),
{
    assert forall|a: Sum<T>, b: Sum<T>, v: T, i: int, m: int, j: int|
        #![trigger
            <Sum<T> as Node>::spec_combine(a, b).spec_update_lazy_value(v).spec_lazy_update(i, j),
            a.spec_update_lazy_value(v).spec_lazy_update(i, m)
        ]
        i <= m < j && j - i < usize::MAX && a.spec_lazy() is None && b.spec_lazy() is None implies
        <Sum<T> as Node>::spec_combine(a, b).spec_update_lazy_value(v).spec_lazy_update(i, j)
        == <Sum<T> as Node>::spec_combine(
        a.spec_update_lazy_value(v).spec_lazy_update(i, m),
        b.spec_update_lazy_value(v).spec_lazy_update(m + 1, j),
    ) by {
        let k1 = (m - i + 1) as usize;
        let k2 = (j - m) as usize;
        assert(v.spec_scale((j - i + 1) as usize) == v.spec_scale(k1).spec_add_value(
            v.spec_scale(k2),
        ));
        let av = a.spec_value();
        let bv = b.spec_value();
        let s1 = v.spec_scale(k1);
        let s2 = v.spec_scale(k2);
        assert(av.spec_add_value(bv).spec_add_value(s1.spec_add_value(s2)) == av.spec_add_value(
            s1,
        ).spec_add_value(bv.spec_add_value(s2))) by {
            assert(bv.spec_add_value(s1.spec_add_value(s2)) == bv.spec_add_value(s1).spec_add_value(
                s2,
            ));
            assert(bv.spec_add_value(s1) == s1.spec_add_value(bv));
            assert(s1.spec_add_value(bv).spec_add_value(s2) == s1.spec_add_value(
                bv.spec_add_value(s2),
            ));
            assert(av.spec_add_value(bv).spec_add_value(s1.spec_add_value(s2)) == av.spec_add_value(
                bv.spec_add_value(s1.spec_add_value(s2)),
            ));
            assert(av.spec_add_value(s1.spec_add_value(bv.spec_add_value(s2)))
                == av.spec_add_value(s1).spec_add_value(bv.spec_add_value(s2)));
        }
    }
}

/// The arithmetic meaning of a sum node, over its public accessors: `combine`
/// adds the operands' values; staging composes left-to-right into the pending
/// slot and leaves the value alone; absorbing adds the pending value once per
/// position of the range.
pub proof fn lemma_sum_semantics<T: AddValue>(x: Sum<T>, y: Sum<T>, v: T, i: int, j: int)
    ensures
        Sum::spec_combine(x, y).spec_value() == x.spec_value().spec_add_value(y.spec_value()),
        Sum::spec_initialize(v).spec_value() == v,
        x.spec_update_lazy_value(v).spec_value() == x.spec_value(),
        x.spec_update_lazy_value(v).spec_lazy() == Some(
            match x.spec_lazy() {
                Some(p) => p.spec_add_value(v),
                None => v,
            },
        ),
        x.spec_lazy_update(i, j).spec_value() == match x.spec_lazy() {
            Some(p) => x.spec_value().spec_add_value(p.spec_scale((j - i + 1) as usize)),
            None => x.spec_value(),
        },
{
}

} // verus!
