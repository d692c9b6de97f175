use crate::nodes::{adj, combine_associative, lazy_coherent, lazy_splittable, LazyNode, Node};
use crate::segment_tree::heap::{
    in_subtree, lemma_child_in_subtree, lemma_fits_children, lemma_fits_root,
    lemma_parent_outside_children, lemma_siblings_disjoint, lemma_subtree_ge, lemma_subtree_trans,
    seg_fits,
};
use crate::segment_tree::lazy_model::{
    lazy_inv, lazy_shape, leaves_of, lemma_compose_leaves, lemma_compose_log,
    lemma_inv_absorb_is_log, lemma_leaves_frame, lemma_leaves_len, lemma_log_clean,
    lemma_log_inv_frame, lemma_log_is_fold, log_of,
};
use crate::segment_tree::range_fold::{
    int_max, int_min, lemma_seg_fold_concat, lower_bound_descent, predicate_decides,
    residual_decides, seg_fold,
};
use vstd::prelude::*;

verus! {

/// How a range update `[left, right]` with `v` acts on a sequence of logical
/// leaves starting at position `base`: each leaf inside the range has `v`
/// composed into its pending slot and immediately absorbed at its own
/// position; leaves outside the range are untouched.
pub open spec fn ranged_stage<T: LazyNode>(
    s: Seq<T>,
    base: int,
    left: int,
    right: int,
    v: T::Value,
) -> Seq<T> {
    Seq::new(
        s.len(),
        |t: int|
            if left <= base + t <= right {
                s[t].spec_update_lazy_value(v).spec_lazy_update(base + t, base + t)
            } else {
                s[t]
            },
    )
}

/// Lazy segment tree with range queries and range updates over the implicit
/// heap layout of [`Recursive`](crate::segment_tree::Recursive): a pending
/// range update is stored at the highest covered slots and pushed one level
/// down only when a later traversal passes it.
///
/// Its view is the sequence of *logical* leaves — what each leaf becomes once
/// every pending value above it has been pushed down and absorbed. Queries
/// never change that view even though they push internally, and a range
/// update rewrites exactly the covered positions (under [`lazy_coherent`]).
pub struct LazyRecursive<T: LazyNode> {
    nodes: Vec<T>,
    n: usize,
}

impl<T: LazyNode> View for LazyRecursive<T> {
    type V = Seq<T>;

    closed spec fn view(&self) -> Seq<T> {
        if self.n == 0 {
            Seq::empty()
        } else {
            leaves_of(self.nodes@, self.nodes@[0], 0, 0, self.n - 1)
        }
    }
}

impl<T: LazyNode> LazyRecursive<T> {
    /// The tree's internal invariant: `4n` slots holding every slot the
    /// segment recursion can visit.
    pub closed spec fn wf(&self) -> bool {
        &&& self.n <= usize::MAX / 8
        &&& self.nodes@.len() == (if self.n == 0 {
            0int
        } else {
            4 * self.n as int
        })
        &&& self.n >= 1 ==> lazy_shape(self.nodes@.len() as int, 0, 0, self.n - 1)
    }

    /// The number of elements the tree was built over.
    pub closed spec fn spec_n(&self) -> usize {
        self.n
    }

    /// A well-formed tree's view has one logical leaf per element.
    pub proof fn lemma_view_len(&self)
        requires
            self.wf(),
        ensures
            self@.len() == self.spec_n(),
    {
        if self.n >= 1 {
            lemma_leaves_len(self.nodes@, self.nodes@[0], 0, 0, self.n - 1);
        }
    }

    /// The tree's summaries are consistent with its logical leaves: this holds
    /// from the moment a tree is built over pending-free nodes and is kept by
    /// every query; range updates keep it whenever the node type obeys
    /// [`lazy_coherent`] and [`lazy_splittable`]. Query summaries are pinned
    /// down only for consistent trees.
    pub closed spec fn consistent(&self) -> bool {
        self.n >= 1 ==> lazy_inv(self.nodes@, self.nodes@[0], 0, 0, self.n - 1)
    }

    /// Builds a lazy segment tree from a slice; each element becomes one
    /// logical leaf (with whatever pending value it already carries absorbed).
    pub fn build(values: &[T]) -> (r: Self)
        requires
            values@.len() <= usize::MAX / 8,
        ensures
            r.wf(),
            r.spec_n() == values@.len(),
            r@.len() == values@.len(),
            forall|x: int|
                0 <= x < values@.len() ==> r@[x] == #[trigger] values@[x].spec_lazy_update(x, x),
            (forall|x: int| 0 <= x < values@.len() ==> (#[trigger] values@[x].spec_lazy()) is None)
                ==> r.consistent(),
    {
        let n = values.len();
        if n == 0 {
            let r = LazyRecursive { nodes: Vec::new(), n: 0 };
            return r;
        }
        let mut nodes: Vec<T> = Vec::new();
        let filler = *vstd::slice::slice_index_get(values, 0);
        while nodes.len() < 4 * n
            invariant
                n == values@.len(),
                n <= usize::MAX / 8,
                nodes@.len() <= 4 * n,
            decreases 4 * n - nodes@.len(),
        {
            nodes.push(filler);
        }
        proof {
            lemma_fits_root(n as int);
        }
        Self::build_helper(0, 0, n - 1, values, &mut nodes);
        let r = LazyRecursive { nodes, n };
        proof {
            lemma_leaves_len(r.nodes@, r.nodes@[0], 0, 0, n - 1);
        }
        r
    }

    fn build_helper(curr_node: usize, i: usize, j: usize, values: &[T], nodes: &mut Vec<T>)
        requires
            i <= j < values@.len(),
            values@.len() <= usize::MAX / 8,
            old(nodes)@.len() == 4 * values@.len(),
            seg_fits(curr_node as int, j - i, values@.len() as int),
            curr_node as int <= 4 * values@.len() - 4,
        ensures
            final(nodes)@.len() == old(nodes)@.len(),
            lazy_shape(final(nodes)@.len() as int, curr_node as int, i as int, j as int),
            leaves_of(final(nodes)@, final(nodes)@[curr_node as int], curr_node as int, i as int, j as int)
                == Seq::new(
                (j - i + 1) as nat,
                |t: int| values@[i + t].spec_lazy_update(i + t, i + t),
            ),
            forall|x: int|
                0 <= x < old(nodes)@.len() && !in_subtree(curr_node as int, x) ==> final(nodes)@[x]
                    == old(nodes)@[x],
            (forall|x: int| i <= x <= j ==> (#[trigger] values@[x].spec_lazy()) is None)
                ==> lazy_inv(final(nodes)@, final(nodes)@[curr_node as int], curr_node as int, i as int, j as int),
            (forall|x: int| i <= x <= j ==> (#[trigger] values@[x].spec_lazy()) is None)
                ==> final(nodes)@[curr_node as int].spec_lazy() is None
                && log_of(final(nodes)@, final(nodes)@[curr_node as int], curr_node as int, i as int, j as int)
                    == final(nodes)@[curr_node as int],
        decreases j - i,
    {
        let ghost k = curr_node as int;
        if i == j {
            let v = *vstd::slice::slice_index_get(values, i);
            nodes[curr_node] = v;
            proof {
                assert(lazy_shape(nodes@.len() as int, k, i as int, j as int));
                if values@[i as int].spec_lazy() is None {
                    T::lemma_lazy_update_noop(values@[i as int], i as int, j as int);
                }
                assert(leaves_of(nodes@, nodes@[k], k, i as int, j as int) =~= Seq::new(
                    (j - i + 1) as nat,
                    |t: int| values@[i + t].spec_lazy_update(i + t, i + t),
                ));
                assert forall|x: int|
                    0 <= x < old(nodes)@.len() && !in_subtree(k, x) implies final(nodes)@[x] == old(
                    nodes,
                )@[x] by {
                    assert(in_subtree(k, k));
                }
            }
            return ;
        }
        let mid = (i + j) / 2;
        let left_node = 2 * curr_node + 1;
        let right_node = 2 * curr_node + 2;
        proof {
            lemma_fits_children(k, j - i, values@.len() as int);
        }
        Self::build_helper(left_node, i, mid, values, nodes);
        let ghost nodes1 = nodes@;
        Self::build_helper(right_node, mid + 1, j, values, nodes);
        let ghost nodes2 = nodes@;
        let c = T::combine(&nodes[left_node], &nodes[right_node]);
        nodes[curr_node] = c;
        proof {
            let sl = Seq::new((mid - i + 1) as nat, |t: int| values@[i + t].spec_lazy_update(i + t, i + t));
            let sr = Seq::new(
                (j - mid) as nat,
                |t: int| values@[mid + 1 + t].spec_lazy_update(mid + 1 + t, mid + 1 + t),
            );
            // The right recursion and the write at the parent slot do not
            // disturb the left subtree, and the parent write spares both.
            assert forall|z: int|
                0 <= z < nodes1.len() && in_subtree(2 * k + 1, z) && z != 2 * k + 1 implies
                nodes2[z] == nodes1[z] by {
                lemma_siblings_disjoint(k, z);
            }
            assert(nodes2[2 * k + 1] == nodes1[2 * k + 1]) by {
                lemma_siblings_disjoint(k, 2 * k + 1);
            }
            lemma_parent_outside_children(k);
            assert forall|z: int|
                0 <= z < nodes2.len() && in_subtree(2 * k + 1, z) && z != 2 * k + 1 implies
                nodes@[z] == nodes2[z] by {
                lemma_subtree_ge(2 * k + 1, z);
            }
            assert forall|z: int|
                0 <= z < nodes2.len() && in_subtree(2 * k + 2, z) && z != 2 * k + 2 implies
                nodes@[z] == nodes2[z] by {
                lemma_subtree_ge(2 * k + 2, z);
            }
            lemma_leaves_frame(nodes1, nodes2, nodes1[2 * k + 1], 2 * k + 1, i as int, mid as int);
            lemma_leaves_frame(nodes2, nodes@, nodes2[2 * k + 1], 2 * k + 1, i as int, mid as int);
            lemma_leaves_frame(nodes2, nodes@, nodes2[2 * k + 2], 2 * k + 2, mid + 1, j as int);
            assert(nodes@[2 * k + 1] == nodes2[2 * k + 1]);
            assert(nodes@[2 * k + 2] == nodes2[2 * k + 2]);
            // The freshly combined parent carries no pending value, so the
            // subtree's logical leaves are its children's, concatenated.
            T::lemma_combine_no_lazy(nodes2[2 * k + 1], nodes2[2 * k + 2]);
            assert(adj(nodes@[k], nodes@[2 * k + 1]) == nodes@[2 * k + 1]);
            assert(adj(nodes@[k], nodes@[2 * k + 2]) == nodes@[2 * k + 2]);
            lemma_leaves_len(nodes@, nodes@[2 * k + 1], 2 * k + 1, i as int, mid as int);
            lemma_leaves_len(nodes@, nodes@[2 * k + 2], 2 * k + 2, mid + 1, j as int);
            assert(leaves_of(nodes@, nodes@[k], k, i as int, j as int) =~= Seq::new(
                (j - i + 1) as nat,
                |t: int| values@[i + t].spec_lazy_update(i + t, i + t),
            ));
            lemma_child_in_subtree(k);
            assert forall|x: int|
                0 <= x < old(nodes)@.len() && !in_subtree(k, x) implies nodes@[x] == old(
                nodes,
            )@[x] by {
                assert(in_subtree(k, k));
                if in_subtree(2 * k + 1, x) {
                    lemma_subtree_trans(k, 2 * k + 1, x);
                }
                if in_subtree(2 * k + 2, x) {
                    lemma_subtree_trans(k, 2 * k + 2, x);
                }
            }
            if forall|x: int| i <= x <= j ==> (#[trigger] values@[x].spec_lazy()) is None {
                // The children were built clean and self-describing, so the
                // fresh combination is too.
                lemma_log_inv_frame(nodes1, nodes2, nodes1[2 * k + 1], 2 * k + 1, i as int, mid as int);
                lemma_log_inv_frame(nodes2, nodes@, nodes2[2 * k + 1], 2 * k + 1, i as int, mid as int);
                lemma_log_inv_frame(nodes2, nodes@, nodes2[2 * k + 2], 2 * k + 2, mid + 1, j as int);
                T::lemma_lazy_update_noop(nodes@[k], i as int, j as int);
                assert(lazy_inv(nodes@, nodes@[k], k, i as int, j as int));
                assert(log_of(nodes@, nodes@[k], k, i as int, j as int) == nodes@[k]);
            }
        }
    }

    /// Pushes the pending value of slot `u` (covering `[i, j]`) one level
    /// down: the children's pending slots receive it and the slot's own value
    /// absorbs it. The logical leaves are unchanged.
    fn push(nodes: &mut Vec<T>, u: usize, i: usize, j: usize)
        requires
            i <= j,
            j <= usize::MAX / 4,
            old(nodes)@.len() <= usize::MAX / 2,
            lazy_shape(old(nodes)@.len() as int, u as int, i as int, j as int),
        ensures
            final(nodes)@.len() == old(nodes)@.len(),
            leaves_of(final(nodes)@, final(nodes)@[u as int], u as int, i as int, j as int)
                == leaves_of(old(nodes)@, old(nodes)@[u as int], u as int, i as int, j as int),
            final(nodes)@[u as int] == old(nodes)@[u as int].spec_lazy_update(i as int, j as int),
            log_of(final(nodes)@, final(nodes)@[u as int], u as int, i as int, j as int) == log_of(
                old(nodes)@,
                old(nodes)@[u as int],
                u as int,
                i as int,
                j as int,
            ),
            lazy_inv(old(nodes)@, old(nodes)@[u as int], u as int, i as int, j as int) ==> lazy_inv(
                final(nodes)@,
                final(nodes)@[u as int],
                u as int,
                i as int,
                j as int,
            ),
            forall|x: int|
                0 <= x < old(nodes)@.len() && !in_subtree(u as int, x) ==> final(nodes)@[x] == old(
                    nodes,
                )@[x],
    {
        let ghost k = u as int;
        let ghost nodes0 = old(nodes)@;
        proof {
            if i < j {
                crate::segment_tree::lazy_model::lemma_shape_children(
                    old(nodes)@.len() as int,
                    k,
                    i as int,
                    j as int,
                );
            }
        }
        let x = nodes[u];
        if i != j {
            let lv = x.lazy_value();
            if let Some(p) = lv {
                let pv = *p;
                let mid = (i + j) / 2;
                let mut cl = nodes[2 * u + 1];
                cl.update_lazy_value(&pv);
                nodes[2 * u + 1] = cl;
                let mut cr = nodes[2 * u + 2];
                cr.update_lazy_value(&pv);
                nodes[2 * u + 2] = cr;
            }
        }
        let mut xu = nodes[u];
        xu.lazy_update(i, j);
        nodes[u] = xu;
        proof {
            let xa = nodes0[k].spec_lazy_update(i as int, j as int);
            T::lemma_lazy_update_clears(nodes0[k], i as int, j as int);
            if i == j {
                T::lemma_lazy_update_noop(xa, i as int, j as int);
                assert(log_of(nodes@, nodes@[k], k, i as int, j as int) == log_of(
                    nodes0,
                    nodes0[k],
                    k,
                    i as int,
                    j as int,
                ));
                assert(leaves_of(nodes@, nodes@[k], k, i as int, j as int) =~= leaves_of(
                    nodes0,
                    nodes0[k],
                    k,
                    i as int,
                    j as int,
                ));
                assert forall|x: int|
                    0 <= x < nodes0.len() && !in_subtree(k, x) implies nodes@[x] == nodes0[x] by {
                    assert(in_subtree(k, k));
                }
            } else {
                let mid = (i + j) / 2;
                lemma_child_in_subtree(k);
                lemma_parent_outside_children(k);
                match nodes0[k].spec_lazy() {
                    Some(p) => {
                        // The children were composed exactly as the logical
                        // adjustment prescribes; the subtree's leaves agree.
                        assert(nodes@[2 * k + 1] == adj(nodes0[k], nodes0[2 * k + 1]));
                        assert(nodes@[2 * k + 2] == adj(nodes0[k], nodes0[2 * k + 2]));
                        assert(adj(nodes@[k], nodes@[2 * k + 1]) == nodes@[2 * k + 1]);
                        assert(adj(nodes@[k], nodes@[2 * k + 2]) == nodes@[2 * k + 2]);
                        assert forall|z: int|
                            0 <= z < nodes0.len() && in_subtree(2 * k + 1, z) && z != 2 * k + 1
                            implies nodes@[z] == nodes0[z] by {
                            lemma_subtree_ge(2 * k + 1, z);
                            lemma_siblings_disjoint(k, z);
                        }
                        assert forall|z: int|
                            0 <= z < nodes0.len() && in_subtree(2 * k + 2, z) && z != 2 * k + 2
                            implies nodes@[z] == nodes0[z] by {
                            lemma_subtree_ge(2 * k + 2, z);
                            if in_subtree(2 * k + 1, z) {
                                lemma_siblings_disjoint(k, z);
                            }
                        }
                        lemma_leaves_frame(
                            nodes0,
                            nodes@,
                            adj(nodes0[k], nodes0[2 * k + 1]),
                            2 * k + 1,
                            i as int,
                            mid as int,
                        );
                        lemma_leaves_frame(
                            nodes0,
                            nodes@,
                            adj(nodes0[k], nodes0[2 * k + 2]),
                            2 * k + 2,
                            mid + 1,
                            j as int,
                        );
                        lemma_log_inv_frame(
                            nodes0,
                            nodes@,
                            adj(nodes0[k], nodes0[2 * k + 1]),
                            2 * k + 1,
                            i as int,
                            mid as int,
                        );
                        lemma_log_inv_frame(
                            nodes0,
                            nodes@,
                            adj(nodes0[k], nodes0[2 * k + 2]),
                            2 * k + 2,
                            mid + 1,
                            j as int,
                        );
                        T::lemma_lazy_update_noop(nodes@[k], i as int, j as int);
                    },
                    None => {
                        T::lemma_lazy_update_noop(nodes0[k], i as int, j as int);
                        assert(nodes@ =~= nodes0);
                    },
                }
                assert forall|x: int|
                    0 <= x < nodes0.len() && !in_subtree(k, x) implies nodes@[x] == nodes0[x] by {
                    assert(in_subtree(k, k));
                    if in_subtree(2 * k + 1, x) {
                        lemma_subtree_trans(k, 2 * k + 1, x);
                    }
                    if in_subtree(2 * k + 2, x) {
                        lemma_subtree_trans(k, 2 * k + 2, x);
                    }
                }
            }
        }
    }

    /// Updates the range `[left, right]` with `value`: under
    /// [`lazy_coherent`], every logical leaf in the range has `value` composed
    /// in and absorbed, and every other leaf is untouched. An empty range
    /// (`left > right`) changes nothing.
    pub fn update(&mut self, left: usize, right: usize, value: &<T as Node>::Value)
        requires
            old(self).wf(),
            left < old(self).spec_n(),
            right < old(self).spec_n(),
        ensures
            final(self).wf(),
            final(self).spec_n() == old(self).spec_n(),
            lazy_coherent::<T>() ==> final(self)@ == ranged_stage(
                old(self)@,
                0,
                left as int,
                right as int,
                *value,
            ),
            left > right ==> final(self)@ == old(self)@,
            lazy_coherent::<T>() && lazy_splittable::<T>() && old(self).consistent() ==> final(self).consistent(),
    {
        Self::update_helper(&mut self.nodes, left, right, value, 0, 0, self.n - 1);
    }

    #[verifier::rlimit(100)]
    fn update_helper(
        nodes: &mut Vec<T>,
        left: usize,
        right: usize,
        value: &<T as Node>::Value,
        curr_node: usize,
        i: usize,
        j: usize,
    )
        requires
            i <= j,
            j <= usize::MAX / 4,
            j - i < usize::MAX / 8,
            old(nodes)@.len() <= usize::MAX / 2,
            lazy_shape(old(nodes)@.len() as int, curr_node as int, i as int, j as int),
        ensures
            final(nodes)@.len() == old(nodes)@.len(),
            lazy_coherent::<T>() ==> leaves_of(
                final(nodes)@,
                final(nodes)@[curr_node as int],
                curr_node as int,
                i as int,
                j as int,
            ) == ranged_stage(
                leaves_of(old(nodes)@, old(nodes)@[curr_node as int], curr_node as int, i as int, j as int),
                i as int,
                left as int,
                right as int,
                *value,
            ),
            int_max(left as int, i as int) > int_min(right as int, j as int) ==> leaves_of(
                final(nodes)@,
                final(nodes)@[curr_node as int],
                curr_node as int,
                i as int,
                j as int,
            ) == leaves_of(old(nodes)@, old(nodes)@[curr_node as int], curr_node as int, i as int, j as int),
            final(nodes)@[curr_node as int].spec_lazy() is None,
            lazy_coherent::<T>() && lazy_splittable::<T>() && lazy_inv(
                old(nodes)@,
                old(nodes)@[curr_node as int],
                curr_node as int,
                i as int,
                j as int,
            ) ==> lazy_inv(
                final(nodes)@,
                final(nodes)@[curr_node as int],
                curr_node as int,
                i as int,
                j as int,
            ),
            forall|x: int|
                0 <= x < old(nodes)@.len() && !in_subtree(curr_node as int, x) ==> final(nodes)@[x]
                    == old(nodes)@[x],
        decreases j - i,
    {
        let ghost k = curr_node as int;
        let ghost nodes0 = old(nodes)@;
        proof {
            lemma_leaves_len(nodes0, nodes0[k], k, i as int, j as int);
            T::lemma_lazy_update_clears(nodes0[k], i as int, j as int);
        }
        let must_push = match nodes[curr_node].lazy_value() {
            Some(_) => true,
            None => false,
        };
        if must_push {
            Self::push(nodes, curr_node, i, j);
        }
        let ghost nodes1 = nodes@;
        if j < left || right < i {
            proof {
                lemma_leaves_len(nodes1, nodes1[k], k, i as int, j as int);
                assert(leaves_of(nodes1, nodes1[k], k, i as int, j as int) =~= ranged_stage(
                    leaves_of(nodes0, nodes0[k], k, i as int, j as int),
                    i as int,
                    left as int,
                    right as int,
                    *value,
                ));
            }
            return ;
        }
        if left <= i && j <= right {
            let mut xk = nodes[curr_node];
            xk.update_lazy_value(value);
            nodes[curr_node] = xk;
            let ghost nodes2 = nodes@;
            proof {
                if i < j {
                    lemma_child_in_subtree(k);
                    lemma_parent_outside_children(k);
                    lemma_leaves_frame(
                        nodes1,
                        nodes2,
                        nodes1[k],
                        k,
                        i as int,
                        j as int,
                    );
                }
            }
            Self::push(nodes, curr_node, i, j);
            proof {
                T::lemma_lazy_update_clears(nodes2[k], i as int, j as int);
                if lazy_coherent::<T>() {
                    lemma_compose_leaves(
                        nodes2,
                        nodes1[k],
                        k,
                        i as int,
                        j as int,
                        *value,
                    );
                    lemma_leaves_len(nodes2, nodes1[k], k, i as int, j as int);
                    assert(leaves_of(nodes@, nodes@[k], k, i as int, j as int) =~= ranged_stage(
                        leaves_of(nodes0, nodes0[k], k, i as int, j as int),
                        i as int,
                        left as int,
                        right as int,
                        *value,
                    ));
                    if lazy_splittable::<T>() && lazy_inv(nodes0, nodes0[k], k, i as int, j as int) {
                        if i < j {
                            lemma_log_inv_frame(nodes1, nodes2, nodes1[k], k, i as int, j as int);
                        }
                        lemma_compose_log(nodes2, nodes1[k], k, i as int, j as int, *value);
                    }
                }
            }
            return ;
        }
        let mid = (i + j) / 2;
        let left_node = 2 * curr_node + 1;
        let right_node = 2 * curr_node + 2;
        proof {
            crate::segment_tree::lazy_model::lemma_shape_children(
                nodes@.len() as int,
                k,
                i as int,
                j as int,
            );
        }
        Self::update_helper(nodes, left, right, value, left_node, i, mid);
        let ghost nodes2 = nodes@;
        Self::update_helper(nodes, left, right, value, right_node, mid + 1, j);
        let ghost nodes3 = nodes@;
        let c = T::combine(&nodes[left_node], &nodes[right_node]);
        nodes[curr_node] = c;
        proof {
            lemma_child_in_subtree(k);
            lemma_parent_outside_children(k);
            // Sibling subtrees stay out of each other's way, and the final
            // parent write spares both.
            assert forall|z: int|
                0 <= z < nodes2.len() && in_subtree(2 * k + 1, z) && z != 2 * k + 1 implies
                nodes3[z] == nodes2[z] by {
                lemma_siblings_disjoint(k, z);
            }
            assert(nodes3[2 * k + 1] == nodes2[2 * k + 1]) by {
                lemma_siblings_disjoint(k, 2 * k + 1);
            }
            assert forall|z: int|
                0 <= z < nodes3.len() && in_subtree(2 * k + 1, z) && z != 2 * k + 1 implies
                nodes@[z] == nodes3[z] by {
                lemma_subtree_ge(2 * k + 1, z);
            }
            assert forall|z: int|
                0 <= z < nodes3.len() && in_subtree(2 * k + 2, z) && z != 2 * k + 2 implies
                nodes@[z] == nodes3[z] by {
                lemma_subtree_ge(2 * k + 2, z);
            }
            lemma_leaves_frame(nodes2, nodes3, nodes2[2 * k + 1], 2 * k + 1, i as int, mid as int);
            lemma_leaves_frame(nodes3, nodes@, nodes3[2 * k + 1], 2 * k + 1, i as int, mid as int);
            lemma_leaves_frame(nodes3, nodes@, nodes3[2 * k + 2], 2 * k + 2, mid + 1, j as int);
            assert(nodes@[2 * k + 1] == nodes3[2 * k + 1]);
            assert(nodes@[2 * k + 2] == nodes3[2 * k + 2]);
            T::lemma_combine_no_lazy(nodes3[2 * k + 1], nodes3[2 * k + 2]);
            assert(adj(nodes@[k], nodes@[2 * k + 1]) == nodes@[2 * k + 1]);
            assert(adj(nodes@[k], nodes@[2 * k + 2]) == nodes@[2 * k + 2]);
            // The pushed parent's pending is empty, so before the recursions
            // the subtree's leaves were the children's, concatenated.
            T::lemma_lazy_update_clears(nodes0[k], i as int, j as int);
            if !must_push {
                T::lemma_lazy_update_noop(nodes0[k], i as int, j as int);
            }
            assert(nodes1[k].spec_lazy() is None);
            assert(adj(nodes1[k], nodes1[2 * k + 1]) == nodes1[2 * k + 1]);
            assert(adj(nodes1[k], nodes1[2 * k + 2]) == nodes1[2 * k + 2]);
            assert(nodes2[2 * k + 2] == nodes1[2 * k + 2]) by {
                assert(in_subtree(2 * k + 2, 2 * k + 2));
                if in_subtree(2 * k + 1, 2 * k + 2) {
                    lemma_siblings_disjoint(k, 2 * k + 2);
                }
            }
            assert forall|z: int|
                0 <= z < nodes1.len() && in_subtree(2 * k + 2, z) && z != 2 * k + 2 implies
                nodes2[z] == nodes1[z] by {
                if in_subtree(2 * k + 1, z) {
                    lemma_siblings_disjoint(k, z);
                }
            }
            lemma_leaves_frame(nodes1, nodes2, nodes1[2 * k + 2], 2 * k + 2, mid + 1, j as int);
            lemma_leaves_len(nodes1, nodes1[2 * k + 1], 2 * k + 1, i as int, mid as int);
            lemma_leaves_len(nodes1, nodes1[2 * k + 2], 2 * k + 2, mid + 1, j as int);
            lemma_leaves_len(nodes@, nodes@[2 * k + 1], 2 * k + 1, i as int, mid as int);
            lemma_leaves_len(nodes@, nodes@[2 * k + 2], 2 * k + 2, mid + 1, j as int);
            if lazy_coherent::<T>() {
                assert(leaves_of(nodes@, nodes@[k], k, i as int, j as int) =~= ranged_stage(
                    leaves_of(nodes0, nodes0[k], k, i as int, j as int),
                    i as int,
                    left as int,
                    right as int,
                    *value,
                ));
                if lazy_splittable::<T>() && lazy_inv(nodes0, nodes0[k], k, i as int, j as int) {
                    // The children's invariants pass through the sibling
                    // recursion and the final parent write, and the fresh
                    // combination describes exactly its children's summaries.
                    lemma_log_inv_frame(nodes1, nodes2, nodes1[2 * k + 2], 2 * k + 2, mid + 1, j as int);
                    lemma_log_inv_frame(nodes2, nodes3, nodes2[2 * k + 1], 2 * k + 1, i as int, mid as int);
                    lemma_log_inv_frame(nodes3, nodes@, nodes3[2 * k + 1], 2 * k + 1, i as int, mid as int);
                    lemma_log_inv_frame(nodes3, nodes@, nodes3[2 * k + 2], 2 * k + 2, mid + 1, j as int);
                    lemma_inv_absorb_is_log(nodes@, nodes@[2 * k + 1], 2 * k + 1, i as int, mid as int);
                    lemma_inv_absorb_is_log(nodes@, nodes@[2 * k + 2], 2 * k + 2, mid + 1, j as int);
                    T::lemma_lazy_update_noop(nodes@[2 * k + 1], i as int, mid as int);
                    T::lemma_lazy_update_noop(nodes@[2 * k + 2], mid + 1, j as int);
                    T::lemma_lazy_update_noop(nodes@[k], i as int, j as int);
                    assert(lazy_inv(nodes@, nodes@[k], k, i as int, j as int));
                }
            }
            assert forall|x: int|
                0 <= x < nodes0.len() && !in_subtree(k, x) implies nodes@[x] == nodes0[x] by {
                assert(in_subtree(k, k));
                if in_subtree(2 * k + 1, x) {
                    lemma_subtree_trans(k, 2 * k + 1, x);
                }
                if in_subtree(2 * k + 2, x) {
                    lemma_subtree_trans(k, 2 * k + 2, x);
                }
            }
        }
    }

    /// Returns the summary of the inclusive range `[left, right]`, or `None`
    /// if and only if the range is empty (`left > right`). Querying may push
    /// pending values down internally, but the logical leaves — the tree's
    /// view — are exactly what they were before.
    pub fn query(&mut self, left: usize, right: usize) -> (r: Option<T>)
        requires
            old(self).wf(),
            left < old(self).spec_n(),
            right < old(self).spec_n(),
        ensures
            final(self).wf(),
            final(self).spec_n() == old(self).spec_n(),
            final(self)@ == old(self)@,
            r is Some <==> left <= right,
            old(self).consistent() ==> final(self).consistent(),
            combine_associative::<T>() && old(self).consistent() && left <= right ==> r == Some(
                seg_fold(old(self)@.subrange(left as int, right + 1)),
            ),
    {
        let r = Self::query_helper(&mut self.nodes, left, right, 0, 0, self.n - 1);
        proof {
            if left <= right {
                assert(old(self)@.subrange(
                    int_max(left as int, 0),
                    int_min(right as int, self.n - 1) + 1,
                ) =~= old(self)@.subrange(left as int, right + 1));
            }
        }
        r
    }

    #[verifier::rlimit(100)]
    fn query_helper(
        nodes: &mut Vec<T>,
        left: usize,
        right: usize,
        curr_node: usize,
        i: usize,
        j: usize,
    ) -> (r: Option<T>)
        requires
            i <= j,
            j <= usize::MAX / 4,
            j - i < usize::MAX / 8,
            old(nodes)@.len() <= usize::MAX / 2,
            lazy_shape(old(nodes)@.len() as int, curr_node as int, i as int, j as int),
        ensures
            final(nodes)@.len() == old(nodes)@.len(),
            leaves_of(final(nodes)@, final(nodes)@[curr_node as int], curr_node as int, i as int, j as int)
                == leaves_of(old(nodes)@, old(nodes)@[curr_node as int], curr_node as int, i as int, j as int),
            forall|x: int|
                0 <= x < old(nodes)@.len() && !in_subtree(curr_node as int, x) ==> final(nodes)@[x]
                    == old(nodes)@[x],
            r is Some <==> int_max(left as int, i as int) <= int_min(right as int, j as int),
            log_of(final(nodes)@, final(nodes)@[curr_node as int], curr_node as int, i as int, j as int)
                == log_of(old(nodes)@, old(nodes)@[curr_node as int], curr_node as int, i as int, j as int),
            lazy_inv(old(nodes)@, old(nodes)@[curr_node as int], curr_node as int, i as int, j as int)
                ==> lazy_inv(final(nodes)@, final(nodes)@[curr_node as int], curr_node as int, i as int, j as int),
            combine_associative::<T>() && lazy_inv(
                old(nodes)@,
                old(nodes)@[curr_node as int],
                curr_node as int,
                i as int,
                j as int,
            ) && int_max(left as int, i as int) <= int_min(right as int, j as int) ==> r == Some(
                seg_fold(
                    leaves_of(
                        old(nodes)@,
                        old(nodes)@[curr_node as int],
                        curr_node as int,
                        i as int,
                        j as int,
                    ).subrange(
                        int_max(left as int, i as int) - i,
                        int_min(right as int, j as int) + 1 - i,
                    ),
                ),
            ),
        decreases j - i,
    {
        let ghost k = curr_node as int;
        let ghost nodes0 = old(nodes)@;
        proof {
            lemma_leaves_len(nodes0, nodes0[k], k, i as int, j as int);
        }
        if j < left || right < i {
            return None;
        }
        let must_push = match nodes[curr_node].lazy_value() {
            Some(_) => true,
            None => false,
        };
        if must_push {
            Self::push(nodes, curr_node, i, j);
        }
        let ghost nodes1 = nodes@;
        if left <= i && j <= right {
            proof {
                if lazy_inv(nodes0, nodes0[k], k, i as int, j as int) {
                    lemma_inv_absorb_is_log(nodes0, nodes0[k], k, i as int, j as int);
                    if !must_push {
                        T::lemma_lazy_update_noop(nodes0[k], i as int, j as int);
                    }
                    if combine_associative::<T>() {
                        lemma_log_is_fold(nodes0, nodes0[k], k, i as int, j as int);
                        assert(leaves_of(nodes0, nodes0[k], k, i as int, j as int).subrange(
                            0,
                            j + 1 - i,
                        ) =~= leaves_of(nodes0, nodes0[k], k, i as int, j as int));
                    }
                }
            }
            return Some(nodes[curr_node]);
        }
        let mid = (i + j) / 2;
        let left_node = 2 * curr_node + 1;
        let right_node = 2 * curr_node + 2;
        proof {
            crate::segment_tree::lazy_model::lemma_shape_children(
                nodes@.len() as int,
                k,
                i as int,
                j as int,
            );
        }
        let rl = Self::query_helper(nodes, left, right, left_node, i, mid);
        let ghost nodes2 = nodes@;
        let rr = Self::query_helper(nodes, left, right, right_node, mid + 1, j);
        let ghost nodes3 = nodes@;
        let r = match (rl, rr) {
            (Some(ans_left), Some(ans_right)) => Some(T::combine(&ans_left, &ans_right)),
            (Some(ans_left), None) => Some(ans_left),
            (None, Some(ans_right)) => Some(ans_right),
            (None, None) => None,
        };
        proof {
            lemma_child_in_subtree(k);
            lemma_parent_outside_children(k);
            T::lemma_lazy_update_clears(nodes0[k], i as int, j as int);
            if !must_push {
                T::lemma_lazy_update_noop(nodes0[k], i as int, j as int);
            }
            assert(nodes1[k].spec_lazy() is None);
            assert(adj(nodes1[k], nodes1[2 * k + 1]) == nodes1[2 * k + 1]);
            assert(adj(nodes1[k], nodes1[2 * k + 2]) == nodes1[2 * k + 2]);
            assert forall|z: int|
                0 <= z < nodes1.len() && in_subtree(2 * k + 2, z) && z != 2 * k + 2 implies
                nodes2[z] == nodes1[z] by {
                if in_subtree(2 * k + 1, z) {
                    lemma_siblings_disjoint(k, z);
                }
            }
            assert(nodes2[2 * k + 2] == nodes1[2 * k + 2]) by {
                assert(in_subtree(2 * k + 2, 2 * k + 2));
                if in_subtree(2 * k + 1, 2 * k + 2) {
                    lemma_siblings_disjoint(k, 2 * k + 2);
                }
            }
            lemma_leaves_frame(nodes1, nodes2, nodes1[2 * k + 2], 2 * k + 2, mid + 1, j as int);
            assert forall|z: int|
                0 <= z < nodes2.len() && in_subtree(2 * k + 1, z) && z != 2 * k + 1 implies
                nodes3[z] == nodes2[z] by {
                lemma_siblings_disjoint(k, z);
            }
            assert(nodes3[2 * k + 1] == nodes2[2 * k + 1]) by {
                lemma_siblings_disjoint(k, 2 * k + 1);
            }
            lemma_leaves_frame(nodes2, nodes3, nodes2[2 * k + 1], 2 * k + 1, i as int, mid as int);
            assert(nodes3[k] == nodes1[k]);
            assert(adj(nodes3[k], nodes3[2 * k + 1]) == nodes3[2 * k + 1]);
            assert(adj(nodes3[k], nodes3[2 * k + 2]) == nodes3[2 * k + 2]);
            assert(leaves_of(nodes3, nodes3[k], k, i as int, j as int) == leaves_of(
                nodes0,
                nodes0[k],
                k,
                i as int,
                j as int,
            ));
            // The children's logical summaries and invariants pass through
            // the sibling recursion unchanged, so the slot's summary and
            // invariant are preserved as well.
            lemma_log_inv_frame(nodes1, nodes2, nodes1[2 * k + 2], 2 * k + 2, mid + 1, j as int);
            lemma_log_inv_frame(nodes2, nodes3, nodes2[2 * k + 1], 2 * k + 1, i as int, mid as int);
            T::lemma_lazy_update_noop(nodes1[k], i as int, j as int);
            if lazy_inv(nodes0, nodes0[k], k, i as int, j as int) {
                assert(lazy_inv(nodes1, nodes1[k], k, i as int, j as int));
                assert(lazy_inv(nodes3, nodes3[k], k, i as int, j as int));
            }
            let lo = int_max(left as int, i as int);
            let hi = int_min(right as int, j as int);
            if combine_associative::<T>() && lazy_inv(nodes0, nodes0[k], k, i as int, j as int)
                && lo <= hi {
                let leaves_l = leaves_of(nodes1, nodes1[2 * k + 1], 2 * k + 1, i as int, mid as int);
                let leaves_r = leaves_of(nodes1, nodes1[2 * k + 2], 2 * k + 2, mid + 1, j as int);
                lemma_leaves_len(nodes1, nodes1[2 * k + 1], 2 * k + 1, i as int, mid as int);
                lemma_leaves_len(nodes1, nodes1[2 * k + 2], 2 * k + 2, mid + 1, j as int);
                assert(leaves_of(nodes0, nodes0[k], k, i as int, j as int) == leaves_l + leaves_r);
                let lol = int_max(left as int, i as int);
                let hil = int_min(right as int, mid as int);
                let lor = int_max(left as int, mid + 1);
                let hir = int_min(right as int, j as int);
                if rl is Some && rr is Some {
                    let a = leaves_l.subrange(lol - i, hil + 1 - i);
                    let b = leaves_r.subrange(lor - (mid + 1), hir - (mid + 1) + 1);
                    assert(hil == mid && lor == mid + 1);
                    lemma_seg_fold_concat::<T>(a, b);
                    assert(a + b =~= (leaves_l + leaves_r).subrange(lo - i, hi + 1 - i));
                } else if rl is Some {
                    assert(leaves_l.subrange(lol - i, hil + 1 - i) =~= (leaves_l
                        + leaves_r).subrange(lo - i, hi + 1 - i));
                } else {
                    assert(leaves_r.subrange(lor - (mid + 1), hir - (mid + 1) + 1) =~= (leaves_l
                        + leaves_r).subrange(lo - i, hi + 1 - i));
                }
            }
            assert forall|x: int|
                0 <= x < nodes0.len() && !in_subtree(k, x) implies nodes@[x] == nodes0[x] by {
                assert(in_subtree(k, k));
                if in_subtree(2 * k + 1, x) {
                    lemma_subtree_trans(k, 2 * k + 1, x);
                }
                if in_subtree(2 * k + 2, x) {
                    lemma_subtree_trans(k, 2 * k + 2, x);
                }
            }
        }
        r
    }

    /// Finds the smallest prefix `[0, u]` whose summary satisfies
    /// `predicate(prefix_value, value)`, descending left when the left
    /// subtree's summary already satisfies it and right otherwise, after
    /// replacing `value` by `g(left_summary, value)`. Each left summary is
    /// read with every pending value along the path composed in and absorbed
    /// (into a local copy, so the tree is untouched). For a consistent tree
    /// over an associative node type the result is exactly the index of that
    /// binary descent over the logical leaves ([`lower_bound_descent`]),
    /// whatever the closures decide. The caller must supply a predicate that
    /// is monotonic over nested prefixes and a residual transfer `g` matching
    /// it for the descent to land on the smallest such prefix; those algebraic
    /// obligations are documented, not checked.
    pub fn lower_bound<F, G>(&self, predicate: F, g: G, value: <T as Node>::Value) -> (r: usize)
        where
            F: Fn(&<T as Node>::Value, &<T as Node>::Value) -> bool,
            G: Fn(&<T as Node>::Value, <T as Node>::Value) -> <T as Node>::Value,
        requires
            self.wf(),
            self.spec_n() >= 1,
            forall|a: &<T as Node>::Value, b: &<T as Node>::Value| predicate.requires((a, b)),
            forall|a: &<T as Node>::Value, b: <T as Node>::Value| g.requires((a, b)),
        ensures
            r < self.spec_n(),
            forall|
                p: spec_fn(<T as Node>::Value, <T as Node>::Value) -> bool,
                q: spec_fn(<T as Node>::Value, <T as Node>::Value) -> <T as Node>::Value,
            |
                #![trigger predicate_decides(predicate, p), residual_decides(g, q)]
                predicate_decides(predicate, p) && residual_decides(g, q)
                    && combine_associative::<T>() && self.consistent() ==> r
                    == lower_bound_descent(self@, 0, self.spec_n() - 1, p, q, value),
    {
        let x = self.nodes[0];
        Self::lower_bound_helper(&self.nodes, 0, x, 0, self.n - 1, predicate, g, value)
    }

    fn lower_bound_helper<F, G>(
        nodes: &Vec<T>,
        curr_node: usize,
        x: T,
        i: usize,
        j: usize,
        predicate: F,
        g: G,
        value: <T as Node>::Value,
    ) -> (r: usize)
        where
            F: Fn(&<T as Node>::Value, &<T as Node>::Value) -> bool,
            G: Fn(&<T as Node>::Value, <T as Node>::Value) -> <T as Node>::Value,
        requires
            i <= j,
            j <= usize::MAX / 4,
            nodes@.len() <= usize::MAX / 2,
            lazy_shape(nodes@.len() as int, curr_node as int, i as int, j as int),
            forall|a: &<T as Node>::Value, b: &<T as Node>::Value| predicate.requires((a, b)),
            forall|a: &<T as Node>::Value, b: <T as Node>::Value| g.requires((a, b)),
        ensures
            i <= r <= j,
            forall|
                p: spec_fn(<T as Node>::Value, <T as Node>::Value) -> bool,
                q: spec_fn(<T as Node>::Value, <T as Node>::Value) -> <T as Node>::Value,
            |
                #![trigger predicate_decides(predicate, p), residual_decides(g, q)]
                predicate_decides(predicate, p) && residual_decides(g, q)
                    && combine_associative::<T>() && lazy_inv(
                    nodes@,
                    x,
                    curr_node as int,
                    i as int,
                    j as int,
                ) ==> r == lower_bound_descent(
                    leaves_of(nodes@, x, curr_node as int, i as int, j as int),
                    i as int,
                    j as int,
                    p,
                    q,
                    value,
                ),
        decreases j - i,
    {
        if i == j {
            return i;
        }
        let mid = (i + j) / 2;
        let left_node = 2 * curr_node + 1;
        let right_node = 2 * curr_node + 2;
        proof {
            crate::segment_tree::lazy_model::lemma_shape_children(
                nodes@.len() as int,
                curr_node as int,
                i as int,
                j as int,
            );
        }
        let mut lw = nodes[left_node];
        let mut rw = nodes[right_node];
        match x.lazy_value() {
            Some(p) => {
                let pv = *p;
                lw.update_lazy_value(&pv);
                rw.update_lazy_value(&pv);
            },
            None => {},
        }
        let ghost ci = curr_node as int;
        let ghost ii = i as int;
        let ghost jj = j as int;
        let ghost m = (ii + jj) / 2;
        let ghost leaves = leaves_of(nodes@, x, ci, ii, jj);
        proof {
            assert(lw == adj(x, nodes@[2 * ci + 1]));
            assert(rw == adj(x, nodes@[2 * ci + 2]));
        }
        // Absorb into a local copy so the correct left summary is read while
        // the tree stays untouched.
        let mut lv_node = lw;
        lv_node.lazy_update(i, mid);
        let left_value = lv_node.value();
        let cond = predicate(left_value, &value);
        if cond {
            let r = Self::lower_bound_helper(nodes, left_node, lw, i, mid, predicate, g, value);
            proof {
                assert forall|
                    p: spec_fn(<T as Node>::Value, <T as Node>::Value) -> bool,
                    q: spec_fn(<T as Node>::Value, <T as Node>::Value) -> <T as Node>::Value,
                |
                    predicate_decides(predicate, p) && residual_decides(g, q)
                        && combine_associative::<T>() && lazy_inv(
                        nodes@,
                        x,
                        ci,
                        ii,
                        jj,
                    ) implies r == lower_bound_descent(leaves, ii, jj, p, q, value) by {
                    lemma_inv_absorb_is_log(nodes@, lw, 2 * ci + 1, ii, m);
                    lemma_log_is_fold(nodes@, lw, 2 * ci + 1, ii, m);
                    lemma_leaves_len(nodes@, lw, 2 * ci + 1, ii, m);
                    lemma_leaves_len(nodes@, rw, 2 * ci + 2, m + 1, jj);
                    assert(leaves_of(nodes@, lw, 2 * ci + 1, ii, m) =~= leaves.subrange(
                        0,
                        m + 1 - ii,
                    ));
                    assert(*left_value == seg_fold(
                        leaves.subrange(0, m + 1 - ii),
                    ).spec_value());
                    assert(cond == p(*left_value, value));
                    assert(r == lower_bound_descent(
                        leaves_of(nodes@, lw, 2 * ci + 1, ii, m),
                        ii,
                        m,
                        p,
                        q,
                        value,
                    ));
                }
            }
            r
        } else {
            let new_value = g(left_value, value);
            let r = Self::lower_bound_helper(
                nodes,
                right_node,
                rw,
                mid + 1,
                j,
                predicate,
                g,
                new_value,
            );
            proof {
                assert forall|
                    p: spec_fn(<T as Node>::Value, <T as Node>::Value) -> bool,
                    q: spec_fn(<T as Node>::Value, <T as Node>::Value) -> <T as Node>::Value,
                |
                    predicate_decides(predicate, p) && residual_decides(g, q)
                        && combine_associative::<T>() && lazy_inv(
                        nodes@,
                        x,
                        ci,
                        ii,
                        jj,
                    ) implies r == lower_bound_descent(leaves, ii, jj, p, q, value) by {
                    lemma_inv_absorb_is_log(nodes@, lw, 2 * ci + 1, ii, m);
                    lemma_log_is_fold(nodes@, lw, 2 * ci + 1, ii, m);
                    lemma_leaves_len(nodes@, lw, 2 * ci + 1, ii, m);
                    lemma_leaves_len(nodes@, rw, 2 * ci + 2, m + 1, jj);
                    assert(leaves_of(nodes@, lw, 2 * ci + 1, ii, m) =~= leaves.subrange(
                        0,
                        m + 1 - ii,
                    ));
                    assert(leaves_of(nodes@, rw, 2 * ci + 2, m + 1, jj) =~= leaves.subrange(
                        m + 1 - ii,
                        leaves.len() as int,
                    ));
                    assert(*left_value == seg_fold(
                        leaves.subrange(0, m + 1 - ii),
                    ).spec_value());
                    assert(cond == p(*left_value, value));
                    assert(new_value == q(seg_fold(leaves.subrange(0, m + 1 - ii)).spec_value(), value));
                    assert(r == lower_bound_descent(
                        leaves_of(nodes@, rw, 2 * ci + 2, m + 1, jj),
                        m + 1,
                        jj,
                        p,
                        q,
                        new_value,
                    ));
                }
            }
            r
        }
    }
}

} // verus!
