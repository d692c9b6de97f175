use crate::nodes::{combine_associative, lazy_coherent, lazy_splittable, LazyNode, Node, PersistentNode};
use crate::segment_tree::range_fold::{
    lower_bound_descent, predicate_decides, residual_decides, seg_fold,
};
use crate::segment_tree::lazy_persistent::LazyPersistent;
use crate::segment_tree::lazy_recursive::ranged_stage;
use vstd::prelude::*;

verus! {

/// Lazy persistent segment tree over nodes that carry their own child slots
/// through the [`PersistentNode`] capability (for example any aggregator
/// behind [`PersistentWrapper`](crate::utils::PersistentWrapper)), carried by
/// the same copy-on-write machinery as [`LazyPersistent`]. Range updates take
/// their value by value rather than by reference; everything else is
/// identical, with the engine keeping its own child bookkeeping.
///
/// Its view is the sequence of versions, each the sequence of that version's
/// logical leaves, exactly as for [`LazyPersistent`].
pub struct LazyPersistentSegmentTree<T: PersistentNode + LazyNode> {
    inner: LazyPersistent<T>,
}

impl<T: PersistentNode + LazyNode> View for LazyPersistentSegmentTree<T> {
    type V = Seq<Seq<T>>;

    closed spec fn view(&self) -> Seq<Seq<T>> {
        self.inner@
    }
}

impl<T: PersistentNode + LazyNode> LazyPersistentSegmentTree<T> {
    /// The engine's internal invariant.
    pub closed spec fn wf(&self) -> bool {
        self.inner.wf()
    }

    /// The number of elements each version holds.
    pub closed spec fn spec_n(&self) -> usize {
        self.inner.spec_n()
    }

    /// The number of recorded versions: the length of the view.
    pub open spec fn spec_versions(&self) -> int {
        self.view().len() as int
    }

    /// The tree's summaries are consistent with its logical leaves; see
    /// [`LazyPersistent::consistent`].
    pub closed spec fn consistent(&self) -> bool {
        self.inner.consistent()
    }

    /// A well-formed tree has one leaf sequence of length `n` per version.
    pub proof fn lemma_view_shape(&self)
        requires
            self.wf(),
        ensures
            self@.len() == self.spec_versions(),
            forall|w: int| 0 <= w < self@.len() ==> (#[trigger] self@[w]).len() == self.spec_n(),
    {
        self.inner.lemma_view_shape();
    }

    /// Builds the lazy persistent tree from a non-empty slice; the resulting
    /// root is version zero, whose logical leaves are the given nodes with
    /// whatever pending values they already carry absorbed.
    pub fn build(values: &[T]) -> (r: Self)
        requires
            1 <= values@.len() <= usize::MAX / 2,
        ensures
            r.wf(),
            r.spec_n() == values@.len(),
            r.spec_versions() == 1,
            r@ == seq![Seq::new(values@.len(), |t: int| values@[t].spec_lazy_update(t, t))],
            (forall|x: int| 0 <= x < values@.len() ==> (#[trigger] values@[x].spec_lazy()) is None)
                ==> r.consistent(),
    {
        LazyPersistentSegmentTree { inner: LazyPersistent::build(values) }
    }

    /// Returns the summary of `[left, right]` in the given version, or `None`
    /// if and only if the range is empty (`left > right`). Traversal may push
    /// pending values down — allocating inside the arena — but it records no
    /// new version and leaves every version's view exactly as it was. For a
    /// consistent tree over an associative, coherent node type the summary is
    /// exactly the fold of that version's logical leaves over the range.
    pub fn query(&mut self, version: usize, left: usize, right: usize) -> (r: Option<T>)
        requires
            old(self).wf(),
            version < old(self).spec_versions(),
            left < old(self).spec_n(),
            right < old(self).spec_n(),
        ensures
            final(self).wf(),
            final(self).spec_n() == old(self).spec_n(),
            final(self)@ == old(self)@,
            r is Some <==> left <= right,
            lazy_coherent::<T>() && old(self).consistent() ==> final(self).consistent(),
            combine_associative::<T>() && lazy_coherent::<T>() && old(self).consistent() && left
                <= right ==> r == Some(
                seg_fold(old(self)@[version as int].subrange(left as int, right + 1)),
            ),
    {
        self.inner.query(version, left, right)
    }

    /// Creates a new version from `version` with `value` composed into every
    /// element of `[left, right]`: exactly one new version is appended, whose
    /// logical leaves are the source version's with the update staged and
    /// absorbed over the range, and every existing version's view is left
    /// untouched.
    pub fn update(&mut self, version: usize, left: usize, right: usize, value: <T as Node>::Value)
        requires
            old(self).wf(),
            version < old(self).spec_versions(),
            left < old(self).spec_n(),
            right < old(self).spec_n(),
        ensures
            final(self).wf(),
            final(self).spec_n() == old(self).spec_n(),
            final(self)@ == old(self)@.push(
                ranged_stage(old(self)@[version as int], 0, left as int, right as int, value),
            ),
            lazy_coherent::<T>() && lazy_splittable::<T>() && old(self).consistent() ==> final(self).consistent(),
    {
        self.inner.update(version, left, right, &value);
    }

    /// The number of different versions this tree has recorded: one from
    /// `build` plus one per `update`. Queries never change it.
    pub fn versions(&self) -> (r: usize)
        requires
            self.wf(),
        ensures
            r == self.spec_versions(),
    {
        self.inner.versions()
    }

    /// Finds the smallest prefix `[0, u]` of the given version whose summary
    /// satisfies `predicate(prefix_value, value)`: for a consistent tree over
    /// an associative, coherent node type the result is exactly the index of
    /// the predicate-guided binary descent over the version's logical leaves
    /// ([`lower_bound_descent`]), whatever the closures decide. See
    /// [`LazyPersistent::lower_bound`] for how pending values are read and for
    /// the caller's algebraic obligations.
    pub fn lower_bound<F, G>(
        &self,
        version: usize,
        predicate: F,
        g: G,
        value: <T as Node>::Value,
    ) -> (r: usize)
        where
            F: Fn(&<T as Node>::Value, &<T as Node>::Value) -> bool,
            G: Fn(&<T as Node>::Value, <T as Node>::Value) -> <T as Node>::Value,
        requires
            self.wf(),
            version < self.spec_versions(),
            forall|a: &<T as Node>::Value, b: &<T as Node>::Value| predicate.requires((a, b)),
            forall|a: &<T as Node>::Value, b: <T as Node>::Value| g.requires((a, b)),
        ensures
            r < self.spec_n(),
            forall|
                p: spec_fn(<T as Node>::Value, <T as Node>::Value) -> bool,
                q: spec_fn(<T as Node>::Value, <T as Node>::Value) -> <T as Node>::Value,
            |
                #![trigger predicate_decides(predicate, p), residual_decides(g, q)]
                predicate_decides(predicate, p) && residual_decides(g, q)
                    && combine_associative::<T>() && lazy_coherent::<T>() && self.consistent()
                    ==> r == lower_bound_descent(
                    self@[version as int],
                    0,
                    self.spec_n() - 1,
                    p,
                    q,
                    value,
                ),
    {
        self.inner.lower_bound(version, predicate, g, value)
    }
}

} // verus!
