use crate::nodes::{combine_associative, Node, OrdValue};
use vstd::prelude::*;

verus! {

/// Range-minimum node over any [`OrdValue`] element type; it only implements
/// [`Node`]. When the two operands compare equal, `combine` keeps the left one.
#[derive(Clone, Copy)]
pub struct Min<T: OrdValue> {
    value: T,
}

impl<T: OrdValue> Node for Min<T> {
    type Value = T;

    closed spec fn spec_initialize(v: T) -> Self {
        Min { value: v }
    }

    closed spec fn spec_combine(a: Self, b: Self) -> Self {
        if a.value.spec_le_value(b.value) {
            a
        } else {
            b
        }
    }

    closed spec fn spec_value(self) -> T {
        self.value
    }

    fn initialize(v: &T) -> (r: Self) {
        Min { value: *v }
    }

    fn combine(a: &Self, b: &Self) -> (r: Self) {
        if a.value.le_value(&b.value) {
            *a
        } else {
            *b
        }
    }

    fn value(&self) -> (r: &T) {
        &self.value
    }

    proof fn lemma_initialize_value(v: T) {
    }
}

/// Taking the smaller of two totally ordered values is associative.
pub proof fn lemma_min_combine_associative<T: OrdValue>()
    ensures
        combine_associative::<Min<T>>(),
{
    assert forall|a: Min<T>, b: Min<T>, c: Min<T>|
        #[trigger] <Min<T> as Node>::spec_combine(<Min<T> as Node>::spec_combine(a, b), c)
            == <Min<T> as Node>::spec_combine(a, <Min<T> as Node>::spec_combine(b, c)) by {
        T::lemma_le_total(a.value, b.value);
        T::lemma_le_total(b.value, c.value);
        T::lemma_le_total(a.value, c.value);
        if a.value.spec_le_value(b.value) && b.value.spec_le_value(c.value) {
            T::lemma_le_transitive(a.value, b.value, c.value);
        }
        if !a.value.spec_le_value(b.value) && !b.value.spec_le_value(c.value) {
            if a.value.spec_le_value(c.value) {
                T::lemma_le_transitive(b.value, a.value, c.value);
            }
        }
    }
}


/// The meaning of `combine`, over the public accessors: the value kept is the
/// smaller of the two operands' values.
pub proof fn lemma_min_combine_value<T: OrdValue>(a: Min<T>, b: Min<T>)
    ensures
        Min::spec_combine(a, b).spec_value() == if a.spec_value().spec_le_value(b.spec_value()) {
            a.spec_value()
        } else {
            b.spec_value()
        },
        Min::spec_initialize(a.spec_value()) == a,
{
}

} // verus!
