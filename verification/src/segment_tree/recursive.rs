use crate::nodes::{combine_associative, Node};
use crate::segment_tree::heap::{
    in_subtree, left_len, lemma_child_in_subtree, lemma_fits_children, lemma_fits_root,
    lemma_parent_outside_children, lemma_represents_fold, lemma_represents_frame,
    lemma_siblings_disjoint, lemma_subtree_ge, lemma_subtree_trans, represents_heap, seg_fits,
};
use crate::segment_tree::range_fold::{
    int_max, int_min, lemma_seg_fold_concat, lower_bound_descent, predicate_decides,
    residual_decides, seg_fold,
};
use vstd::prelude::*;

verus! {

/// Segment tree with range queries and point updates, addressed top-down
/// through an implicit heap layout (children of slot `k` at `2k+1` and
/// `2k+2`) inside a flat array of `4n` slots. Unlike [`Iterative`] it also
/// supports predicate-guided binary descent through [`Recursive::lower_bound`].
///
/// Its view is the sequence of leaf nodes. Queries return the left-to-right
/// [`seg_fold`] of the queried leaves whenever `combine` is associative; a
/// non-associative `combine` yields an unspecified (but safe) node.
///
/// [`Iterative`]: crate::segment_tree::Iterative
pub struct Recursive<T: Node> {
    nodes: Vec<T>,
    n: usize,
    leaves: Ghost<Seq<T>>,
}

impl<T: Node> View for Recursive<T> {
    type V = Seq<T>;

    closed spec fn view(&self) -> Seq<T> {
        self.leaves@
    }
}

impl<T: Node> Recursive<T> {
    /// The tree's internal invariant: the array has `4n` slots and its root
    /// subtree summarizes the leaf sequence.
    pub closed spec fn wf(&self) -> bool {
        &&& self.n == self.leaves@.len()
        &&& self.n <= usize::MAX / 8
        &&& self.nodes@.len() == (if self.n == 0 {
            0int
        } else {
            4 * self.n as int
        })
        &&& self.n >= 1 ==> represents_heap(self.nodes@, 0, self.leaves@)
    }

    /// The number of elements the tree was built over.
    pub closed spec fn spec_n(&self) -> usize {
        self.n
    }

    /// A well-formed tree's view has one leaf per element.
    pub proof fn lemma_view_len(&self)
        requires
            self.wf(),
        ensures
            self@.len() == self.spec_n(),
    {
    }


    /// Builds a segment tree from a slice; each element becomes one leaf.
    pub fn build(values: &[T]) -> (r: Self)
        requires
            values@.len() <= usize::MAX / 8,
        ensures
            r.wf(),
            r@ == values@,
            r.spec_n() == values@.len(),
    {
        let n = values.len();
        if n == 0 {
            return Recursive { nodes: Vec::new(), n: 0, leaves: Ghost(values@) };
        }
        let mut nodes: Vec<T> = Vec::new();
        let filler = *vstd::slice::slice_index_get(values, 0);
        while nodes.len() < 4 * n
            invariant
                n == values@.len(),
                n <= usize::MAX / 8,
                nodes@.len() <= 4 * n,
            decreases 4 * n - nodes@.len(),
        {
            nodes.push(filler);
        }
        proof {
            lemma_fits_root(n as int);
        }
        Self::build_helper(0, 0, n - 1, values, &mut nodes);
        proof {
            assert(values@.subrange(0, values@.len() as int) =~= values@);
        }
        Recursive { nodes, n, leaves: Ghost(values@) }
    }

    fn build_helper(curr_node: usize, i: usize, j: usize, values: &[T], nodes: &mut Vec<T>)
        requires
            i <= j < values@.len(),
            values@.len() <= usize::MAX / 8,
            old(nodes)@.len() == 4 * values@.len(),
            seg_fits(curr_node as int, j - i, values@.len() as int),
            curr_node as int <= 4 * values@.len() - 4,
        ensures
            final(nodes)@.len() == old(nodes)@.len(),
            represents_heap(final(nodes)@, curr_node as int, values@.subrange(i as int, j + 1)),
            forall|x: int|
                0 <= x < old(nodes)@.len() && !in_subtree(curr_node as int, x) ==> final(nodes)@[x] == old(nodes)@[x],
        decreases j - i,
    {
        let ghost s = values@.subrange(i as int, j + 1);
        if i == j {
            let v = *vstd::slice::slice_index_get(values, i);
            nodes[curr_node] = v;
            proof {
                assert(s.len() == 1 && s[0] == values@[i as int]);
                assert forall|x: int|
                    0 <= x < old(nodes)@.len() && !in_subtree(curr_node as int, x) implies final(nodes)@[x] == old(nodes)@[x] by {
                    assert(in_subtree(curr_node as int, curr_node as int));
                }
            }
            return ;
        }
        let mid = (i + j) / 2;
        let left_node = 2 * curr_node + 1;
        let right_node = 2 * curr_node + 2;
        proof {
            lemma_fits_children(curr_node as int, j - i, values@.len() as int);
            assert(mid - i == (j - i) / 2);
            assert(j - (mid + 1) == (j - i) - (j - i) / 2 - 1);
        }
        Self::build_helper(left_node, i, mid, values, nodes);
        let ghost nodes1 = nodes@;
        Self::build_helper(right_node, mid + 1, j, values, nodes);
        let ghost nodes2 = nodes@;
        let c = T::combine(&nodes[left_node], &nodes[right_node]);
        nodes[curr_node] = c;
        proof {
            let k = curr_node as int;
            let sl = values@.subrange(i as int, mid + 1);
            let sr = values@.subrange(mid + 1, j + 1);
            // The right recursion did not disturb the left subtree.
            assert forall|x: int|
                0 <= x < nodes1.len() && in_subtree(2 * k + 1, x) implies nodes2[x] == nodes1[x] by {
                lemma_siblings_disjoint(k, x);
            }
            lemma_represents_frame(nodes1, nodes2, 2 * k + 1, sl);
            // Writing the parent slot disturbs neither subtree.
            lemma_parent_outside_children(k);
            assert forall|x: int|
                0 <= x < nodes2.len() && in_subtree(2 * k + 1, x) implies nodes@[x] == nodes2[x] by {
                lemma_subtree_ge(2 * k + 1, x);
            }
            assert forall|x: int|
                0 <= x < nodes2.len() && in_subtree(2 * k + 2, x) implies nodes@[x] == nodes2[x] by {
                lemma_subtree_ge(2 * k + 2, x);
            }
            lemma_represents_frame(nodes2, nodes@, 2 * k + 1, sl);
            lemma_represents_frame(nodes2, nodes@, 2 * k + 2, sr);
            assert(sl =~= s.subrange(0, left_len(s.len() as int)));
            assert(sr =~= s.subrange(left_len(s.len() as int), s.len() as int));
            assert(nodes@[2 * k + 1] == nodes2[2 * k + 1]);
            assert(nodes@[2 * k + 2] == nodes2[2 * k + 2]);
            assert(represents_heap(nodes@, k, s));
            // Everything written lies in the subtree of the current slot.
            lemma_child_in_subtree(k);
            assert forall|x: int|
                0 <= x < old(nodes)@.len() && !in_subtree(k, x) implies nodes@[x] == old(nodes)@[x] by {
                assert(in_subtree(k, k));
                if in_subtree(2 * k + 1, x) {
                    lemma_subtree_trans(k, 2 * k + 1, x);
                }
                if in_subtree(2 * k + 2, x) {
                    lemma_subtree_trans(k, 2 * k + 2, x);
                }
            }
        }
    }

    /// Sets the `p`-th element to `initialize(value)` and recomputes every
    /// summary on the path above it. All other leaves are untouched.
    pub fn update(&mut self, p: usize, value: &<T as Node>::Value)
        requires
            old(self).wf(),
            p < old(self).spec_n(),
        ensures
            final(self).wf(),
            final(self).spec_n() == old(self).spec_n(),
            final(self)@ == old(self)@.update(p as int, T::spec_initialize(*value)),
    {
        let ghost s = self.leaves@;
        proof {
            lemma_fits_root(self.n as int);
        }
        Self::update_helper(&mut self.nodes, p, value, 0, 0, self.n - 1, Ghost(s));
        proof {
            self.leaves@ = s.update(p as int, T::spec_initialize(*value));
            assert(s.subrange(0, s.len() as int) =~= s);
            assert(s.update(p as int, T::spec_initialize(*value)) =~= s.subrange(
                0,
                s.len() as int,
            ).update(p as int, T::spec_initialize(*value)));
        }
    }

    fn update_helper(
        nodes: &mut Vec<T>,
        p: usize,
        value: &<T as Node>::Value,
        curr_node: usize,
        i: usize,
        j: usize,
        s: Ghost<Seq<T>>,
    )
        requires
            i <= j,
            j <= usize::MAX / 4,
            j - i < usize::MAX / 8,
            old(nodes)@.len() <= usize::MAX / 2,
            s@.len() == j - i + 1,
            represents_heap(old(nodes)@, curr_node as int, s@),
        ensures
            final(nodes)@.len() == old(nodes)@.len(),
            represents_heap(
                final(nodes)@,
                curr_node as int,
                if i <= p <= j {
                    s@.update(p - i, T::spec_initialize(*value))
                } else {
                    s@
                },
            ),
            forall|x: int|
                0 <= x < old(nodes)@.len() && !in_subtree(curr_node as int, x) ==> final(nodes)@[x] == old(nodes)@[x],
        decreases j - i,
    {
        if j < p || p < i {
            return ;
        }
        if i == j {
            let v = T::initialize(value);
            nodes[curr_node] = v;
            proof {
                assert(s@.update(0, T::spec_initialize(*value)).len() == 1);
                assert forall|x: int|
                    0 <= x < old(nodes)@.len() && !in_subtree(curr_node as int, x) implies final(nodes)@[x] == old(nodes)@[x] by {
                    assert(in_subtree(curr_node as int, curr_node as int));
                }
            }
            return ;
        }
        let mid = (i + j) / 2;
        let left_node = 2 * curr_node + 1;
        let right_node = 2 * curr_node + 2;
        let ghost k = curr_node as int;
        let ghost ls = left_len(s@.len() as int);
        let ghost sl = s@.subrange(0, ls);
        let ghost sr = s@.subrange(ls, s@.len() as int);
        proof {
            assert(mid - i + 1 == ls);
        }
        Self::update_helper(nodes, p, value, left_node, i, mid, Ghost(sl));
        let ghost nodes1 = nodes@;
        let ghost sl2 = if i <= p <= mid {
            sl.update(p - i, T::spec_initialize(*value))
        } else {
            sl
        };
        proof {
            // The left recursion did not disturb the right subtree.
            assert forall|x: int|
                0 <= x < old(nodes)@.len() && in_subtree(2 * k + 2, x) implies nodes1[x] == old(nodes)@[x] by {
                if in_subtree(2 * k + 1, x) {
                    lemma_siblings_disjoint(k, x);
                }
            }
            lemma_represents_frame(old(nodes)@, nodes1, 2 * k + 2, sr);
        }
        Self::update_helper(nodes, p, value, right_node, mid + 1, j, Ghost(sr));
        let ghost nodes2 = nodes@;
        let ghost sr2 = if mid + 1 <= p <= j {
            sr.update(p - (mid + 1), T::spec_initialize(*value))
        } else {
            sr
        };
        let c = T::combine(&nodes[left_node], &nodes[right_node]);
        nodes[curr_node] = c;
        proof {
            // The right recursion did not disturb the updated left subtree.
            assert forall|x: int|
                0 <= x < nodes1.len() && in_subtree(2 * k + 1, x) implies nodes2[x] == nodes1[x] by {
                lemma_siblings_disjoint(k, x);
            }
            lemma_represents_frame(nodes1, nodes2, 2 * k + 1, sl2);
            // Writing the parent slot disturbs neither subtree.
            lemma_parent_outside_children(k);
            assert forall|x: int|
                0 <= x < nodes2.len() && in_subtree(2 * k + 1, x) implies nodes@[x] == nodes2[x] by {
                lemma_subtree_ge(2 * k + 1, x);
            }
            assert forall|x: int|
                0 <= x < nodes2.len() && in_subtree(2 * k + 2, x) implies nodes@[x] == nodes2[x] by {
                lemma_subtree_ge(2 * k + 2, x);
            }
            lemma_represents_frame(nodes2, nodes@, 2 * k + 1, sl2);
            lemma_represents_frame(nodes2, nodes@, 2 * k + 2, sr2);
            let s2 = s@.update(p - i, T::spec_initialize(*value));
            assert(sl2 =~= s2.subrange(0, ls));
            assert(sr2 =~= s2.subrange(ls, s2.len() as int));
            assert(represents_heap(nodes@, k, s2));
            lemma_child_in_subtree(k);
            assert forall|x: int|
                0 <= x < old(nodes)@.len() && !in_subtree(k, x) implies nodes@[x] == old(nodes)@[x] by {
                assert(in_subtree(k, k));
                if in_subtree(2 * k + 1, x) {
                    lemma_subtree_trans(k, 2 * k + 1, x);
                }
                if in_subtree(2 * k + 2, x) {
                    lemma_subtree_trans(k, 2 * k + 2, x);
                }
            }
        }
    }

    /// Returns the summary of the inclusive range `[left, right]`, or `None`
    /// if and only if the range is empty (`left > right`). When `combine` is
    /// associative the summary is exactly the fold of the queried leaves.
    pub fn query(&self, left: usize, right: usize) -> (r: Option<T>)
        requires
            self.wf(),
            left < self.spec_n(),
            right < self.spec_n(),
        ensures
            r is Some <==> left <= right,
            left == right ==> r == Some(self@[left as int]),
            combine_associative::<T>() && left <= right ==> r == Some(
                seg_fold(self@.subrange(left as int, right + 1)),
            ),
    {
        let r = Self::query_helper(
            &self.nodes,
            left,
            right,
            0,
            0,
            self.n - 1,
            Ghost(self.leaves@),
        );
        proof {
            if left <= right {
                assert(self.leaves@.subrange(int_max(left as int, 0), int_min(
                    right as int,
                    self.n - 1,
                ) + 1) =~= self.leaves@.subrange(left as int, right + 1));
            }
        }
        r
    }

    #[verifier::rlimit(100)]
    fn query_helper(
        nodes: &Vec<T>,
        left: usize,
        right: usize,
        curr_node: usize,
        i: usize,
        j: usize,
        s: Ghost<Seq<T>>,
    ) -> (r: Option<T>)
        requires
            i <= j,
            j <= usize::MAX / 4,
            j - i < usize::MAX / 8,
            nodes@.len() <= usize::MAX / 2,
            s@.len() == j - i + 1,
            represents_heap(nodes@, curr_node as int, s@),
        ensures
            r is Some <==> int_max(left as int, i as int) <= int_min(right as int, j as int),
            int_max(left as int, i as int) == int_min(right as int, j as int) ==> r == Some(
                s@[int_max(left as int, i as int) - i],
            ),
            combine_associative::<T>() && int_max(left as int, i as int) <= int_min(
                right as int,
                j as int,
            ) ==> r == Some(
                seg_fold(
                    s@.subrange(
                        int_max(left as int, i as int) - i,
                        int_min(right as int, j as int) + 1 - i,
                    ),
                ),
            ),
        decreases j - i,
    {
        if j < left || right < i {
            return None;
        }
        if left <= i && j <= right {
            proof {
                if combine_associative::<T>() {
                    lemma_represents_fold(nodes@, curr_node as int, s@);
                    assert(s@.subrange(0, j + 1 - i) =~= s@);
                }
            }
            return Some(nodes[curr_node]);
        }
        let mid = (i + j) / 2;
        let left_node = 2 * curr_node + 1;
        let right_node = 2 * curr_node + 2;
        let ghost ls = left_len(s@.len() as int);
        let ghost sl = s@.subrange(0, ls);
        let ghost sr = s@.subrange(ls, s@.len() as int);
        proof {
            assert(mid - i + 1 == ls);
        }
        let rl = Self::query_helper(nodes, left, right, left_node, i, mid, Ghost(sl));
        let rr = Self::query_helper(nodes, left, right, right_node, mid + 1, j, Ghost(sr));
        let r = match (rl, rr) {
            (Some(ans_left), Some(ans_right)) => Some(T::combine(&ans_left, &ans_right)),
            (Some(ans_left), None) => Some(ans_left),
            (None, Some(ans_right)) => Some(ans_right),
            (None, None) => None,
        };
        proof {
            let lo = int_max(left as int, i as int);
            let hi = int_min(right as int, j as int);
            if combine_associative::<T>() && lo <= hi {
                let lol = int_max(left as int, i as int);
                let hil = int_min(right as int, mid as int);
                let lor = int_max(left as int, mid + 1);
                let hir = int_min(right as int, j as int);
                if rl is Some && rr is Some {
                    let a = sl.subrange(lol - i, hil + 1 - i);
                    let b = sr.subrange(lor - (mid + 1), hir - (mid + 1) + 1);
                    assert(hil == mid && lor == mid + 1);
                    lemma_seg_fold_concat::<T>(a, b);
                    assert(a + b =~= s@.subrange(lo - i, hi + 1 - i));
                } else if rl is Some {
                    assert(sl.subrange(lol - i, hil + 1 - i) =~= s@.subrange(lo - i, hi + 1 - i));
                } else {
                    assert(sr.subrange(lor - (mid + 1), hir - (mid + 1) + 1) =~= s@.subrange(
                        lo - i,
                        hi + 1 - i,
                    ));
                }
            }
        }
        r
    }

    /// Finds the smallest prefix `[0, u]` whose summary satisfies
    /// `predicate(prefix_value, value)`, descending left when the left
    /// subtree's summary already satisfies it and right otherwise, after
    /// replacing `value` by `g(left_summary, value)`: whatever the two
    /// closures decide, the result is exactly the index of that binary descent
    /// over the leaves ([`lower_bound_descent`]). The caller must supply a
    /// predicate that is monotonic over nested prefixes and a residual
    /// transfer `g` matching it for the descent to land on the smallest such
    /// prefix; those algebraic obligations are documented, not checked.
    pub fn lower_bound<F, G>(&self, predicate: F, g: G, value: <T as Node>::Value) -> (r: usize)
        where
            F: Fn(&<T as Node>::Value, &<T as Node>::Value) -> bool,
            G: Fn(&<T as Node>::Value, <T as Node>::Value) -> <T as Node>::Value,
        requires
            self.wf(),
            self.spec_n() >= 1,
            forall|a: &<T as Node>::Value, b: &<T as Node>::Value| predicate.requires((a, b)),
            forall|a: &<T as Node>::Value, b: <T as Node>::Value| g.requires((a, b)),
        ensures
            r < self.spec_n(),
            forall|
                p: spec_fn(<T as Node>::Value, <T as Node>::Value) -> bool,
                q: spec_fn(<T as Node>::Value, <T as Node>::Value) -> <T as Node>::Value,
            |
                #![trigger predicate_decides(predicate, p), residual_decides(g, q)]
                predicate_decides(predicate, p) && residual_decides(g, q)
                    && combine_associative::<T>() ==> r == lower_bound_descent(
                    self@,
                    0,
                    self.spec_n() - 1,
                    p,
                    q,
                    value,
                ),
    {
        proof {
            assert(self.leaves@.subrange(0, self.leaves@.len() as int) =~= self.leaves@);
        }
        Self::lower_bound_helper(&self.nodes, 0, 0, self.n - 1, predicate, g, value, Ghost(self.leaves@))
    }

    fn lower_bound_helper<F, G>(
        nodes: &Vec<T>,
        curr_node: usize,
        i: usize,
        j: usize,
        predicate: F,
        g: G,
        value: <T as Node>::Value,
        s: Ghost<Seq<T>>,
    ) -> (r: usize)
        where
            F: Fn(&<T as Node>::Value, &<T as Node>::Value) -> bool,
            G: Fn(&<T as Node>::Value, <T as Node>::Value) -> <T as Node>::Value,
        requires
            i <= j,
            j <= usize::MAX / 4,
            j - i < usize::MAX / 8,
            nodes@.len() <= usize::MAX / 2,
            s@.len() == j - i + 1,
            represents_heap(nodes@, curr_node as int, s@),
            forall|a: &<T as Node>::Value, b: &<T as Node>::Value| predicate.requires((a, b)),
            forall|a: &<T as Node>::Value, b: <T as Node>::Value| g.requires((a, b)),
        ensures
            i <= r <= j,
            forall|
                p: spec_fn(<T as Node>::Value, <T as Node>::Value) -> bool,
                q: spec_fn(<T as Node>::Value, <T as Node>::Value) -> <T as Node>::Value,
            |
                #![trigger predicate_decides(predicate, p), residual_decides(g, q)]
                predicate_decides(predicate, p) && residual_decides(g, q)
                    && combine_associative::<T>() ==> r == lower_bound_descent(
                    s@,
                    i as int,
                    j as int,
                    p,
                    q,
                    value,
                ),
        decreases j - i,
    {
        if i == j {
            return i;
        }
        let mid = (i + j) / 2;
        let left_node = 2 * curr_node + 1;
        let right_node = 2 * curr_node + 2;
        let ghost ls = left_len(s@.len() as int);
        let ghost sl = s@.subrange(0, ls);
        let ghost sr = s@.subrange(ls, s@.len() as int);
        proof {
            assert(mid - i + 1 == ls);
            assert(represents_heap(nodes@, 2 * (curr_node as int) + 1, sl));
            assert(0 <= 2 * (curr_node as int) + 1 < nodes@.len());
        }
        let left_value = nodes[left_node].value();
        let cond = predicate(left_value, &value);
        if cond {
            let r = Self::lower_bound_helper(nodes, left_node, i, mid, predicate, g, value, Ghost(sl));
            proof {
                assert forall|
                    p: spec_fn(<T as Node>::Value, <T as Node>::Value) -> bool,
                    q: spec_fn(<T as Node>::Value, <T as Node>::Value) -> <T as Node>::Value,
                |
                    predicate_decides(predicate, p) && residual_decides(g, q)
                        && combine_associative::<T>() implies r == lower_bound_descent(
                    s@,
                    i as int,
                    j as int,
                    p,
                    q,
                    value,
                ) by {
                    lemma_represents_fold(nodes@, 2 * (curr_node as int) + 1, sl);
                    assert(sl =~= s@.subrange(0, (i as int + j as int) / 2 + 1 - i as int));
                    assert(seg_fold(sl) == nodes@[2 * (curr_node as int) + 1]);
                    assert(cond == p(*left_value, value));
                    assert(p(seg_fold(sl).spec_value(), value));
                    assert(r == lower_bound_descent(sl, i as int, mid as int, p, q, value));
                }
            }
            r
        } else {
            let new_value = g(left_value, value);
            let r = Self::lower_bound_helper(
                nodes,
                right_node,
                mid + 1,
                j,
                predicate,
                g,
                new_value,
                Ghost(sr),
            );
            proof {
                assert forall|
                    p: spec_fn(<T as Node>::Value, <T as Node>::Value) -> bool,
                    q: spec_fn(<T as Node>::Value, <T as Node>::Value) -> <T as Node>::Value,
                |
                    predicate_decides(predicate, p) && residual_decides(g, q)
                        && combine_associative::<T>() implies r == lower_bound_descent(
                    s@,
                    i as int,
                    j as int,
                    p,
                    q,
                    value,
                ) by {
                    lemma_represents_fold(nodes@, 2 * (curr_node as int) + 1, sl);
                    assert(sl =~= s@.subrange(0, (i as int + j as int) / 2 + 1 - i as int));
                    assert(sr =~= s@.subrange(
                        (i as int + j as int) / 2 + 1 - i as int,
                        s@.len() as int,
                    ));
                    assert(seg_fold(sl) == nodes@[2 * (curr_node as int) + 1]);
                    assert(cond == p(*left_value, value));
                    assert(!p(seg_fold(sl).spec_value(), value));
                    assert(new_value == q(seg_fold(sl).spec_value(), value));
                    assert(r == lower_bound_descent(
                        sr,
                        mid + 1 as int,
                        j as int,
                        p,
                        q,
                        new_value,
                    ));
                }
            }
            r
        }
    }
}

} // verus!
