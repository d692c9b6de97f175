use crate::nodes::{combine_associative, lazy_coherent, lazy_splittable, LazyNode, Node};
use crate::segment_tree::range_fold::{
    lower_bound_descent, predicate_decides, residual_decides, seg_fold,
};
use crate::segment_tree::lazy_recursive::{ranged_stage, LazyRecursive};
use vstd::prelude::*;

verus! {

/// Lazy segment tree with range queries and range updates, carried by the
/// same top-down machinery as [`LazyRecursive`]. Range updates take their
/// value by value rather than by reference; everything else is identical.
///
/// Its view is the sequence of logical leaves, exactly as for
/// [`LazyRecursive`].
pub struct LazySegmentTree<T: LazyNode> {
    inner: LazyRecursive<T>,
}

impl<T: LazyNode> View for LazySegmentTree<T> {
    type V = Seq<T>;

    closed spec fn view(&self) -> Seq<T> {
        self.inner@
    }
}

impl<T: LazyNode> LazySegmentTree<T> {
    /// The tree's internal invariant.
    pub closed spec fn wf(&self) -> bool {
        self.inner.wf()
    }

    /// The number of elements the tree was built over.
    pub closed spec fn spec_n(&self) -> usize {
        self.inner.spec_n()
    }

    /// The tree's summaries are consistent with its logical leaves; see
    /// [`LazyRecursive::consistent`].
    pub closed spec fn consistent(&self) -> bool {
        self.inner.consistent()
    }

    /// A well-formed tree's view has one logical leaf per element.
    pub proof fn lemma_view_len(&self)
        requires
            self.wf(),
        ensures
            self@.len() == self.spec_n(),
    {
        self.inner.lemma_view_len();
    }

    /// Builds a lazy segment tree from a slice; each element becomes one
    /// logical leaf (with whatever pending value it already carries absorbed).
    pub fn build(values: &[T]) -> (r: Self)
        requires
            values@.len() <= usize::MAX / 8,
        ensures
            r.wf(),
            r.spec_n() == values@.len(),
            r@.len() == values@.len(),
            forall|x: int|
                0 <= x < values@.len() ==> r@[x] == #[trigger] values@[x].spec_lazy_update(x, x),
            (forall|x: int| 0 <= x < values@.len() ==> (#[trigger] values@[x].spec_lazy()) is None)
                ==> r.consistent(),
    {
        LazySegmentTree { inner: LazyRecursive::build(values) }
    }

    /// Updates the range `[i, j]` with `value`: under [`lazy_coherent`], every
    /// logical leaf in the range has `value` composed in and absorbed, and
    /// every other leaf is untouched.
    pub fn update(&mut self, i: usize, j: usize, value: <T as Node>::Value)
        requires
            old(self).wf(),
            i < old(self).spec_n(),
            j < old(self).spec_n(),
        ensures
            final(self).wf(),
            final(self).spec_n() == old(self).spec_n(),
            lazy_coherent::<T>() ==> final(self)@ == ranged_stage(
                old(self)@,
                0,
                i as int,
                j as int,
                value,
            ),
            i > j ==> final(self)@ == old(self)@,
            lazy_coherent::<T>() && lazy_splittable::<T>() && old(self).consistent() ==> final(self).consistent(),
    {
        self.inner.update(i, j, &value);
    }

    /// Returns the summary of the inclusive range `[left, right]`, or `None`
    /// if and only if the range is empty (`left > right`). Querying may push
    /// pending values down internally, but the logical leaves are unchanged.
    pub fn query(&mut self, left: usize, right: usize) -> (r: Option<T>)
        requires
            old(self).wf(),
            left < old(self).spec_n(),
            right < old(self).spec_n(),
        ensures
            final(self).wf(),
            final(self).spec_n() == old(self).spec_n(),
            final(self)@ == old(self)@,
            r is Some <==> left <= right,
            old(self).consistent() ==> final(self).consistent(),
            combine_associative::<T>() && old(self).consistent() && left <= right ==> r == Some(
                seg_fold(old(self)@.subrange(left as int, right + 1)),
            ),
    {
        self.inner.query(left, right)
    }

    /// Finds the smallest prefix `[0, u]` whose summary satisfies
    /// `predicate(prefix_value, value)`: for a consistent tree over an
    /// associative node type the result is exactly the index of the
    /// predicate-guided binary descent over the logical leaves
    /// ([`lower_bound_descent`]), whatever the closures decide. See
    /// [`LazyRecursive::lower_bound`] for how pending values are read and for
    /// the caller's algebraic obligations.
    pub fn lower_bound<F, G>(&self, predicate: F, g: G, value: <T as Node>::Value) -> (r: usize)
        where
            F: Fn(&<T as Node>::Value, &<T as Node>::Value) -> bool,
            G: Fn(&<T as Node>::Value, <T as Node>::Value) -> <T as Node>::Value,
        requires
            self.wf(),
            self.spec_n() >= 1,
            forall|a: &<T as Node>::Value, b: &<T as Node>::Value| predicate.requires((a, b)),
            forall|a: &<T as Node>::Value, b: <T as Node>::Value| g.requires((a, b)),
        ensures
            r < self.spec_n(),
            forall|
                p: spec_fn(<T as Node>::Value, <T as Node>::Value) -> bool,
                q: spec_fn(<T as Node>::Value, <T as Node>::Value) -> <T as Node>::Value,
            |
                #![trigger predicate_decides(predicate, p), residual_decides(g, q)]
                predicate_decides(predicate, p) && residual_decides(g, q)
                    && combine_associative::<T>() && self.consistent() ==> r
                    == lower_bound_descent(self@, 0, self.spec_n() - 1, p, q, value),
    {
        self.inner.lower_bound(predicate, g, value)
    }
}

} // verus!
