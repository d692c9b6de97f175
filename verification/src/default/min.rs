use crate::nodes::{adj, combine_associative, lazy_coherent, lazy_splittable, LazyNode, Node, OrdValue};
use vstd::prelude::*;

verus! {

/// Range-minimum node over any [`OrdValue`] element type. Besides [`Node`] it
/// implements [`LazyNode`] with "set the range to a value" semantics: the
/// pending slot overwrites outright and absorbing it replaces the stored
/// minimum. When the two operands of `combine` compare equal, the left one is
/// kept.
#[derive(Clone, Copy)]
pub struct Min<T: OrdValue> {
    value: T,
    lazy_value: Option<T>,
}

impl<T: OrdValue> Node for Min<T> {
    type Value = T;

    closed spec fn spec_initialize(v: T) -> Self {
        Min { value: v, lazy_value: None }
    }

    closed spec fn spec_combine(a: Self, b: Self) -> Self {
        if a.value.spec_le_value(b.value) {
            Min { value: a.value, lazy_value: None }
        } else {
            Min { value: b.value, lazy_value: None }
        }
    }

    closed spec fn spec_value(self) -> T {
        self.value
    }

    fn initialize(v: &T) -> (r: Self) {
        Min { value: *v, lazy_value: None }
    }

    fn combine(a: &Self, b: &Self) -> (r: Self) {
        if a.value.le_value(&b.value) {
            Min { value: a.value, lazy_value: None }
        } else {
            Min { value: b.value, lazy_value: None }
        }
    }

    fn value(&self) -> (r: &T) {
        &self.value
    }

    proof fn lemma_initialize_value(v: T) {
    }
}

impl<T: OrdValue> LazyNode for Min<T> {
    closed spec fn spec_lazy(self) -> Option<T> {
        self.lazy_value
    }

    closed spec fn spec_lazy_update(self, i: int, j: int) -> Self {
        match self.lazy_value {
            Some(v) => Min { value: v, lazy_value: None },
            None => self,
        }
    }

    closed spec fn spec_update_lazy_value(self, v: T) -> Self {
        Min { value: self.value, lazy_value: Some(v) }
    }

    fn lazy_update(&mut self, i: usize, j: usize) {
        match self.lazy_value {
            Some(v) => {
                self.value = v;
                self.lazy_value = None;
            },
            None => {},
        }
    }

    fn update_lazy_value(&mut self, new_value: &T) {
        self.lazy_value = Some(*new_value);
    }

    fn lazy_value(&self) -> (r: Option<&T>) {
        self.lazy_value.as_ref()
    }

    proof fn lemma_lazy_update_clears(x: Self, i: int, j: int) {
    }

    proof fn lemma_update_lazy_value_sets(x: Self, v: T) {
    }

    proof fn lemma_lazy_update_noop(x: Self, i: int, j: int) {
    }

    proof fn lemma_initialize_no_lazy(v: T) {
    }

    proof fn lemma_combine_no_lazy(a: Self, b: Self) {
    }
}

/// Taking the smaller of two totally ordered values is associative.
pub proof fn lemma_min_combine_associative<T: OrdValue>()
    ensures
        combine_associative::<Min<T>>(),
{
    assert forall|a: Min<T>, b: Min<T>, c: Min<T>|
        #[trigger] <Min<T> as Node>::spec_combine(<Min<T> as Node>::spec_combine(a, b), c)
            == <Min<T> as Node>::spec_combine(a, <Min<T> as Node>::spec_combine(b, c)) by {
        T::lemma_le_total(a.value, b.value);
        T::lemma_le_total(b.value, c.value);
        T::lemma_le_total(a.value, c.value);
        if a.value.spec_le_value(b.value) && b.value.spec_le_value(c.value) {
            T::lemma_le_transitive(a.value, b.value, c.value);
        }
        if !a.value.spec_le_value(b.value) && !b.value.spec_le_value(c.value) {
            if a.value.spec_le_value(c.value) {
                T::lemma_le_transitive(b.value, a.value, c.value);
            }
        }
    }
}

/// The set-semantics `Min` node obeys the lazy coherence laws outright.
pub proof fn lemma_min_lazy_coherent<T: OrdValue>()
    ensures
        lazy_coherent::<Min<T>>(),
{
    assert forall|x: Min<T>, v: T, i: int, j: int|
        (#[trigger] x.spec_update_lazy_value(v).spec_lazy_update(i, j)) == x.spec_lazy_update(
        i,
        j,
    ).spec_update_lazy_value(v).spec_lazy_update(i, j) by {
        assert(x.spec_update_lazy_value(v).spec_lazy_update(i, j) == (Min {
            value: v,
            lazy_value: None,
        }));
    }
    assert forall|x: Min<T>, v: T, c: Min<T>|
        #![trigger adj(x.spec_update_lazy_value(v), c)]
        adj(x.spec_update_lazy_value(v), c) == adj(x, c).spec_update_lazy_value(v) by {
        assert(adj(x.spec_update_lazy_value(v), c) == (Min { value: c.value, lazy_value: Some(v) }));
        assert(adj(x, c).spec_update_lazy_value(v) == (Min { value: c.value, lazy_value: Some(v) }));
    }
}

/// The set-semantics `Min` node obeys the splitting law outright: setting a
/// combined range and setting its two halves give the same minimum.
pub proof fn lemma_min_lazy_splittable<T: OrdValue>()
    ensures
        lazy_splittable::<Min<T>>(),
{
    assert forall|a: Min<T>, b: Min<T>, v: T, i: int, m: int, j: int|
        #![trigger
            <Min<T> as Node>::spec_combine(a, b).spec_update_lazy_value(v).spec_lazy_update(i, j),
            a.spec_update_lazy_value(v).spec_lazy_update(i, m)
        ]
        i <= m < j && j - i < usize::MAX && a.spec_lazy() is None && b.spec_lazy() is None implies <Min<T> as Node>::spec_combine(
        a,
        b,
    ).spec_update_lazy_value(v).spec_lazy_update(i, j) == <Min<T> as Node>::spec_combine(
        a.spec_update_lazy_value(v).spec_lazy_update(i, m),
        b.spec_update_lazy_value(v).spec_lazy_update(m + 1, j),
    ) by {
        assert(a.spec_update_lazy_value(v).spec_lazy_update(i, m) == (Min {
            value: v,
            lazy_value: None,
        }));
        assert(b.spec_update_lazy_value(v).spec_lazy_update(m + 1, j) == (Min {
            value: v,
            lazy_value: None,
        }));
    }
}

/// The meaning of the set-semantics minimum node, over its public accessors:
/// `combine` keeps the smaller value, staging overwrites the pending slot
/// outright and leaves the value alone, and absorbing replaces the value with
/// the pending one.
pub proof fn lemma_min_semantics<T: OrdValue>(a: Min<T>, b: Min<T>, v: T, i: int, j: int)
    ensures
        Min::spec_combine(a, b).spec_value() == if a.spec_value().spec_le_value(b.spec_value()) {
            a.spec_value()
        } else {
            b.spec_value()
        },
        Min::spec_initialize(v).spec_value() == v,
        a.spec_update_lazy_value(v).spec_value() == a.spec_value(),
        a.spec_update_lazy_value(v).spec_lazy() == Some(v),
        a.spec_lazy_update(i, j).spec_value() == match a.spec_lazy() {
            Some(p) => p,
            None => a.spec_value(),
        },
{
}

} // verus!
