use crate::nodes::{combine_associative, Node, OrdValue};
use vstd::prelude::*;

verus! {

/// Range-maximum node over any [`OrdValue`] element type; it only implements
/// [`Node`]. When the two operands compare equal, `combine` keeps the right one.
#[derive(Clone, Copy)]
pub struct Max<T: OrdValue> {
    value: T,
}

impl<T: OrdValue> Node for Max<T> {
    type Value = T;

    closed spec fn spec_initialize(v: T) -> Self {
        Max { value: v }
    }

    closed spec fn spec_combine(a: Self, b: Self) -> Self {
        if a.value.spec_le_value(b.value) {
            b
        } else {
            a
        }
    }

    closed spec fn spec_value(self) -> T {
        self.value
    }

    fn initialize(v: &T) -> (r: Self) {
        Max { value: *v }
    }

    fn combine(a: &Self, b: &Self) -> (r: Self) {
        if a.value.le_value(&b.value) {
            *b
        } else {
            *a
        }
    }

    fn value(&self) -> (r: &T) {
        &self.value
    }

    proof fn lemma_initialize_value(v: T) {
    }
}

/// Taking the larger of two totally ordered values is associative.
pub proof fn lemma_max_combine_associative<T: OrdValue>()
    ensures
        combine_associative::<Max<T>>(),
{
    assert forall|a: Max<T>, b: Max<T>, c: Max<T>|
        #[trigger] <Max<T> as Node>::spec_combine(<Max<T> as Node>::spec_combine(a, b), c)
            == <Max<T> as Node>::spec_combine(a, <Max<T> as Node>::spec_combine(b, c)) by {
        T::lemma_le_total(a.value, b.value);
        T::lemma_le_total(b.value, c.value);
        T::lemma_le_total(a.value, c.value);
        if a.value.spec_le_value(b.value) && b.value.spec_le_value(c.value) {
            T::lemma_le_transitive(a.value, b.value, c.value);
        }
        if !a.value.spec_le_value(b.value) && !b.value.spec_le_value(c.value) {
            if a.value.spec_le_value(c.value) {
                T::lemma_le_transitive(a.value, c.value, b.value);
            }
        }
    }
}


/// The meaning of `combine`, over the public accessors: the value kept is the
/// larger of the two operands' values.
pub proof fn lemma_max_combine_value<T: OrdValue>(a: Max<T>, b: Max<T>)
    ensures
        Max::spec_combine(a, b).spec_value() == if a.spec_value().spec_le_value(b.spec_value()) {
            b.spec_value()
        } else {
            a.spec_value()
        },
        Max::spec_initialize(a.spec_value()) == a,
{
}

} // verus!
