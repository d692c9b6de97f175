use crate::internal_utils::persistent_utils::PersistentWrapper;
use crate::nodes::{combine_associative, Node};
use crate::segment_tree::range_fold::{
    int_max, int_min, lemma_seg_fold_concat, lower_bound_descent, predicate_decides,
    residual_decides, seg_fold,
};
use vstd::prelude::*;

verus! {

/// The subtree hanging off arena slot `k` summarizes the leaf sequence `s`:
/// a one-leaf subtree holds that leaf, and an inner slot records two child
/// slots whose subtrees summarize the two halves of `s`, split as the engines
/// split their segments, and holds their combination.
pub(crate) open spec fn represents_arena<T: Node>(
    nodes: Seq<PersistentWrapper<T>>,
    k: int,
    s: Seq<T>,
) -> bool
    decreases s.len(),
{
    if s.len() == 0 {
        false
    } else if s.len() == 1 {
        0 <= k < nodes.len() && nodes[k].spec_inner() == s[0]
    } else {
        let ls = (s.len() - 1) / 2 + 1;
        &&& 0 <= k < nodes.len()
        &&& nodes[k].spec_left() is Some
        &&& nodes[k].spec_right() is Some
        &&& represents_arena(nodes, nodes[k].spec_left()->0.spec_get() as int, s.subrange(0, ls))
        &&& represents_arena(
            nodes,
            nodes[k].spec_right()->0.spec_get() as int,
            s.subrange(ls, s.len() as int),
        )
        &&& nodes[k].spec_inner() == T::spec_combine(
            nodes[nodes[k].spec_left()->0.spec_get() as int].spec_inner(),
            nodes[nodes[k].spec_right()->0.spec_get() as int].spec_inner(),
        )
    }
}

/// Representation reads only existing slots, so it survives appending to the
/// arena: nothing already published is ever rewritten.
pub(crate) proof fn lemma_arena_extend<T: Node>(
    nodes1: Seq<PersistentWrapper<T>>,
    nodes2: Seq<PersistentWrapper<T>>,
    k: int,
    s: Seq<T>,
)
    requires
        represents_arena(nodes1, k, s),
        nodes1.len() <= nodes2.len(),
        forall|x: int| 0 <= x < nodes1.len() ==> nodes2[x] == nodes1[x],
    ensures
        represents_arena(nodes2, k, s),
    decreases s.len(),
{
    reveal_with_fuel(represents_arena, 3);
    assert(nodes2[k] == nodes1[k]);
    if s.len() > 1 {
        let ls = (s.len() - 1) / 2 + 1;
        let lc = nodes1[k].spec_left()->0.spec_get() as int;
        let rc = nodes1[k].spec_right()->0.spec_get() as int;
        lemma_arena_extend(nodes1, nodes2, lc, s.subrange(0, ls));
        lemma_arena_extend(nodes1, nodes2, rc, s.subrange(ls, s.len() as int));
        assert(0 <= lc < nodes1.len() && 0 <= rc < nodes1.len());
        assert(nodes2[lc] == nodes1[lc] && nodes2[rc] == nodes1[rc]);
        assert(represents_arena(nodes2, k, s));
    }
}

/// Under associativity a represented arena slot holds exactly the fold of its
/// leaf sequence.
pub(crate) proof fn lemma_arena_fold<T: Node>(nodes: Seq<PersistentWrapper<T>>, k: int, s: Seq<T>)
    requires
        combine_associative::<T>(),
        represents_arena(nodes, k, s),
    ensures
        nodes[k].spec_inner() == seg_fold(s),
    decreases s.len(),
{
    if s.len() > 1 {
        let ls = (s.len() - 1) / 2 + 1;
        let sl = s.subrange(0, ls);
        let sr = s.subrange(ls, s.len() as int);
        lemma_arena_fold(nodes, nodes[k].spec_left()->0.spec_get() as int, sl);
        lemma_arena_fold(nodes, nodes[k].spec_right()->0.spec_get() as int, sr);
        lemma_seg_fold_concat::<T>(sl, sr);
        assert(sl + sr =~= s);
    }
}

/// Persistent segment tree: every update copies only the path to the changed
/// leaf into a growing arena and records the new root as a new version, so all
/// previous versions stay valid. Point updates, range queries and
/// predicate-guided descent, each against any recorded version.
///
/// Its view is the sequence of versions, each the leaf sequence of that
/// version. Old versions are immutable: an update only appends.
pub struct Persistent<T: Node> {
    nodes: Vec<PersistentWrapper<T>>,
    roots: Vec<usize>,
    n: usize,
    version_leaves: Ghost<Seq<Seq<T>>>,
}

impl<T: Node> View for Persistent<T> {
    type V = Seq<Seq<T>>;

    closed spec fn view(&self) -> Seq<Seq<T>> {
        self.version_leaves@
    }
}

impl<T: Node> Persistent<T> {
    /// The engine's internal invariant: one recorded root per version, each
    /// summarizing that version's leaves inside the shared arena.
    pub closed spec fn wf(&self) -> bool {
        &&& self.n <= usize::MAX / 2
        &&& self.roots@.len() == self.version_leaves@.len()
        &&& self.n == 0 ==> self.roots@.len() == 0
        &&& forall|v: int|
            #![trigger self.version_leaves@[v]]
            0 <= v < self.roots@.len() ==> self.version_leaves@[v].len() == self.n
                && represents_arena(
                self.nodes@,
                self.roots@[v] as int,
                self.version_leaves@[v],
            )
    }

    /// The number of elements each version holds.
    pub closed spec fn spec_n(&self) -> usize {
        self.n
    }

    /// The number of recorded versions: the length of the view.
    pub open spec fn spec_versions(&self) -> int {
        self.view().len() as int
    }

    /// A well-formed tree has one leaf sequence of length `n` per version.
    pub proof fn lemma_view_shape(&self)
        requires
            self.wf(),
        ensures
            self@.len() == self.spec_versions(),
            forall|w: int| 0 <= w < self@.len() ==> (#[trigger] self@[w]).len() == self.spec_n(),
    {
        assert forall|w: int| 0 <= w < self@.len() implies (#[trigger] self@[w]).len()
            == self.spec_n() by {
            assert(self@[w] == self.version_leaves@[w]);
            assert(self.version_leaves@[w].len() == self.n);
        }
    }

    /// Builds the persistent tree from a slice; the resulting root is version
    /// zero.
    pub fn build(values: &[T]) -> (r: Self)
        requires
            values@.len() <= usize::MAX / 2,
        ensures
            r.wf(),
            r.spec_n() == values@.len(),
            r@ == if values@.len() == 0 {
                Seq::<Seq<T>>::empty()
            } else {
                seq![values@]
            },
    {
        let n = values.len();
        let mut nodes: Vec<PersistentWrapper<T>> = Vec::new();
        let mut roots: Vec<usize> = Vec::new();
        if n == 0 {
            return Persistent { nodes, roots, n, version_leaves: Ghost(Seq::empty()) };
        }
        let root = Self::build_helper(&mut nodes, values, 0, n - 1);
        roots.push(root);
        let ghost vl = seq![values@];
        proof {
            assert(values@.subrange(0, values@.len() as int) =~= values@);
        }
        Persistent { nodes, roots, n, version_leaves: Ghost(vl) }
    }

    fn build_helper(
        nodes: &mut Vec<PersistentWrapper<T>>,
        values: &[T],
        i: usize,
        j: usize,
    ) -> (root: usize)
        requires
            i <= j < values@.len(),
            values@.len() <= usize::MAX / 2,
        ensures
            old(nodes)@.len() <= final(nodes)@.len(),
            forall|x: int| 0 <= x < old(nodes)@.len() ==> final(nodes)@[x] == old(nodes)@[x],
            root < final(nodes)@.len(),
            represents_arena(final(nodes)@, root as int, values@.subrange(i as int, j + 1)),
        decreases j - i,
    {
        let ghost s = values@.subrange(i as int, j + 1);
        if i == j {
            let curr_node = nodes.len();
            nodes.push(PersistentWrapper::from_node(*vstd::slice::slice_index_get(values, i)));
            return curr_node;
        }
        let mid = (i + j) / 2;
        let left_node = Self::build_helper(nodes, values, i, mid);
        let ghost nodes1 = nodes@;
        let right_node = Self::build_helper(nodes, values, mid + 1, j);
        let ghost nodes2 = nodes@;
        let curr_node = nodes.len();
        let a = nodes[left_node];
        let b = nodes[right_node];
        let mut c = <PersistentWrapper<T> as Node>::combine(&a, &b);
        c.set_children(left_node, right_node);
        nodes.push(c);
        proof {
            let ghost sl = values@.subrange(i as int, mid + 1);
            let ghost sr = values@.subrange(mid + 1, j + 1);
            crate::internal_utils::persistent_utils::lemma_wrapper_combine(a, b);
            lemma_arena_extend(nodes1, nodes2, left_node as int, sl);
            lemma_arena_extend(nodes2, nodes@, left_node as int, sl);
            lemma_arena_extend(nodes2, nodes@, right_node as int, sr);
            assert(sl =~= s.subrange(0, (s.len() - 1) / 2 + 1));
            assert(sr =~= s.subrange((s.len() - 1) / 2 + 1, s.len() as int));
            assert(represents_arena(nodes@, curr_node as int, s));
        }
        curr_node
    }

    /// Returns the summary of `[left, right]` in the given version, or `None`
    /// if and only if the range is empty (`left > right`). When `combine` is
    /// associative the summary is exactly the fold of that version's leaves
    /// over the range.
    pub fn query(&self, version: usize, left: usize, right: usize) -> (r: Option<T>)
        requires
            self.wf(),
            version < self.spec_versions(),
            left < self.spec_n(),
            right < self.spec_n(),
        ensures
            r is Some <==> left <= right,
            left == right ==> r == Some(self@[version as int][left as int]),
            combine_associative::<T>() && left <= right ==> r == Some(
                seg_fold(self@[version as int].subrange(left as int, right + 1)),
            ),
    {
        let root = self.roots[version];
        let r = Self::query_helper(
            &self.nodes,
            root,
            left,
            right,
            0,
            self.n - 1,
            Ghost(self.version_leaves@[version as int]),
        );
        proof {
            if left <= right {
                assert(self.version_leaves@[version as int].subrange(
                    int_max(left as int, 0),
                    int_min(right as int, self.n - 1) + 1,
                ) =~= self.version_leaves@[version as int].subrange(left as int, right + 1));
            }
        }
        match r {
            Some(w) => Some(w.into_inner()),
            None => None,
        }
    }

    #[verifier::rlimit(100)]
    fn query_helper(
        nodes: &Vec<PersistentWrapper<T>>,
        curr_node: usize,
        left: usize,
        right: usize,
        i: usize,
        j: usize,
        s: Ghost<Seq<T>>,
    ) -> (r: Option<PersistentWrapper<T>>)
        requires
            i <= j,
            j <= usize::MAX / 2,
            s@.len() == j - i + 1,
            represents_arena(nodes@, curr_node as int, s@),
        ensures
            r is Some <==> int_max(left as int, i as int) <= int_min(right as int, j as int),
            int_max(left as int, i as int) == int_min(right as int, j as int) ==> r is Some
                && r->0.spec_inner() == s@[int_max(left as int, i as int) - i],
            combine_associative::<T>() && int_max(left as int, i as int) <= int_min(
                right as int,
                j as int,
            ) ==> r is Some && r->0.spec_inner() == seg_fold(
                s@.subrange(
                    int_max(left as int, i as int) - i,
                    int_min(right as int, j as int) + 1 - i,
                ),
            ),
        decreases j - i,
    {
        if j < left || right < i {
            return None;
        }
        if left <= i && j <= right {
            proof {
                if combine_associative::<T>() {
                    lemma_arena_fold(nodes@, curr_node as int, s@);
                    assert(s@.subrange(0, j + 1 - i) =~= s@);
                }
            }
            return Some(nodes[curr_node]);
        }
        let mid = (i + j) / 2;
        let ghost ls = (s@.len() - 1) / 2 + 1;
        let ghost sl = s@.subrange(0, ls);
        let ghost sr = s@.subrange(ls, s@.len() as int);
        let w = nodes[curr_node];
        let l_opt = w.left_child();
        let r_opt = w.right_child();
        proof {
            assert(l_opt is Some && r_opt is Some);
            assert(mid - i + 1 == ls);
        }
        let left_node = l_opt.unwrap().get();
        let right_node = r_opt.unwrap().get();
        let rl = Self::query_helper(nodes, left_node, left, right, i, mid, Ghost(sl));
        let rr = Self::query_helper(nodes, right_node, left, right, mid + 1, j, Ghost(sr));
        let r = match (rl, rr) {
            (Some(ans_left), Some(ans_right)) => Some(
                <PersistentWrapper<T> as Node>::combine(&ans_left, &ans_right),
            ),
            (Some(ans_left), None) => Some(ans_left),
            (None, Some(ans_right)) => Some(ans_right),
            (None, None) => None,
        };
        proof {
            let lo = int_max(left as int, i as int);
            let hi = int_min(right as int, j as int);
            if combine_associative::<T>() && lo <= hi {
                let lol = int_max(left as int, i as int);
                let hil = int_min(right as int, mid as int);
                let lor = int_max(left as int, mid + 1);
                let hir = int_min(right as int, j as int);
                if rl is Some && rr is Some {
                    let a = sl.subrange(lol - i, hil + 1 - i);
                    let b = sr.subrange(lor - (mid + 1), hir - (mid + 1) + 1);
                    crate::internal_utils::persistent_utils::lemma_wrapper_combine(
                        rl->0,
                        rr->0,
                    );
                    lemma_seg_fold_concat::<T>(a, b);
                    assert(a + b =~= s@.subrange(lo - i, hi + 1 - i));
                } else if rl is Some {
                    assert(sl.subrange(lol - i, hil + 1 - i) =~= s@.subrange(lo - i, hi + 1 - i));
                } else {
                    assert(sr.subrange(lor - (mid + 1), hir - (mid + 1) + 1) =~= s@.subrange(
                        lo - i,
                        hi + 1 - i,
                    ));
                }
            }
        }
        r
    }

    /// Creates a new version from `version` with the `p`-th element set to
    /// `initialize(value)`: the new leaf sequence is appended as a version of
    /// its own and every existing version is left untouched.
    pub fn update(&mut self, version: usize, p: usize, value: &<T as Node>::Value)
        requires
            old(self).wf(),
            version < old(self).spec_versions(),
            p < old(self).spec_n(),
        ensures
            final(self).wf(),
            final(self).spec_n() == old(self).spec_n(),
            final(self)@ == old(self)@.push(
                old(self)@[version as int].update(p as int, T::spec_initialize(*value)),
            ),
    {
        let root = self.roots[version];
        let ghost s = self.version_leaves@[version as int];
        let ghost nodes0 = self.nodes@;
        let new_root = Self::update_helper(
            &mut self.nodes,
            root,
            p,
            value,
            0,
            self.n - 1,
            Ghost(s),
        );
        self.roots.push(new_root);
        proof {
            self.version_leaves@ = self.version_leaves@.push(
                s.update(p as int, T::spec_initialize(*value)),
            );
            let tr = old(self).roots@[version as int];
            assert(old(self).version_leaves@[version as int].len() == old(self).n);
            assert forall|v: int|
                #![trigger self.version_leaves@[v]]
                0 <= v < self.roots@.len() implies self.version_leaves@[v].len() == self.n
                && represents_arena(
                self.nodes@,
                self.roots@[v] as int,
                self.version_leaves@[v],
            ) by {
                if v < self.roots@.len() - 1 {
                    lemma_arena_extend(nodes0, self.nodes@, self.roots@[v] as int, self.version_leaves@[v]);
                    assert(self.version_leaves@[v] == old(self).version_leaves@[v]);
                    assert(old(self).version_leaves@[v].len() == old(self).n);
                } else {
                    assert(self.version_leaves@[v] == s.update(p as int, T::spec_initialize(*value)));
                }
            }
            assert(self.wf());
        }
    }

    fn update_helper(
        nodes: &mut Vec<PersistentWrapper<T>>,
        curr_node: usize,
        p: usize,
        value: &<T as Node>::Value,
        i: usize,
        j: usize,
        s: Ghost<Seq<T>>,
    ) -> (root: usize)
        requires
            i <= j,
            j <= usize::MAX / 2,
            s@.len() == j - i + 1,
            represents_arena(old(nodes)@, curr_node as int, s@),
        ensures
            old(nodes)@.len() <= final(nodes)@.len(),
            forall|x: int| 0 <= x < old(nodes)@.len() ==> final(nodes)@[x] == old(nodes)@[x],
            root < final(nodes)@.len(),
            represents_arena(
                final(nodes)@,
                root as int,
                if i <= p <= j {
                    s@.update(p - i, T::spec_initialize(*value))
                } else {
                    s@
                },
            ),
        decreases j - i,
    {
        if j < p || p < i {
            return curr_node;
        }
        if i == j {
            let x = nodes.len();
            nodes.push(PersistentWrapper::from_node(T::initialize(value)));
            proof {
                assert(s@.update(0, T::spec_initialize(*value)).len() == 1);
            }
            return x;
        }
        let mid = (i + j) / 2;
        let ghost ls = (s@.len() - 1) / 2 + 1;
        let ghost sl = s@.subrange(0, ls);
        let ghost sr = s@.subrange(ls, s@.len() as int);
        let w = nodes[curr_node];
        let l_opt = w.left_child();
        let r_opt = w.right_child();
        proof {
            assert(l_opt is Some && r_opt is Some);
            assert(mid - i + 1 == ls);
        }
        let left_node = l_opt.unwrap().get();
        let right_node = r_opt.unwrap().get();
        let ghost nodes0 = nodes@;
        let new_left = Self::update_helper(nodes, left_node, p, value, i, mid, Ghost(sl));
        let ghost nodes1 = nodes@;
        let ghost sl2 = if i <= p <= mid {
            sl.update(p - i, T::spec_initialize(*value))
        } else {
            sl
        };
        proof {
            lemma_arena_extend(nodes0, nodes1, right_node as int, sr);
        }
        let new_right = Self::update_helper(nodes, right_node, p, value, mid + 1, j, Ghost(sr));
        let ghost nodes2 = nodes@;
        let ghost sr2 = if mid + 1 <= p <= j {
            sr.update(p - (mid + 1), T::spec_initialize(*value))
        } else {
            sr
        };
        let x = nodes.len();
        let a = nodes[new_left];
        let b = nodes[new_right];
        let mut c = <PersistentWrapper<T> as Node>::combine(&a, &b);
        c.set_children(new_left, new_right);
        nodes.push(c);
        proof {
            crate::internal_utils::persistent_utils::lemma_wrapper_combine(a, b);
            lemma_arena_extend(nodes1, nodes2, new_left as int, sl2);
            lemma_arena_extend(nodes2, nodes@, new_left as int, sl2);
            lemma_arena_extend(nodes2, nodes@, new_right as int, sr2);
            let s2 = s@.update(p - i, T::spec_initialize(*value));
            assert(sl2 =~= s2.subrange(0, ls));
            assert(sr2 =~= s2.subrange(ls, s2.len() as int));
            assert(represents_arena(nodes@, x as int, s2));
        }
        x
    }

    /// The number of different versions this tree has recorded: one from
    /// `build` plus one per `update`.
    pub fn versions(&self) -> (r: usize)
        requires
            self.wf(),
        ensures
            r == self.spec_versions(),
    {
        self.roots.len()
    }

    /// Finds the smallest prefix `[0, u]` of the given version whose summary
    /// satisfies `predicate(prefix_value, value)`, descending left when the
    /// left subtree's summary already satisfies it and right otherwise, after
    /// replacing `value` by `g(left_summary, value)`. The caller must supply a
    /// predicate that is monotonic over nested prefixes and a residual
    /// transfer `g` matching it for the descent to land on the smallest such
    /// prefix; those algebraic obligations are documented, not checked. Either
    /// way the result is exactly the index of that binary descent over the
    /// version's leaves ([`lower_bound_descent`]), whatever the closures
    /// decide.
    pub fn lower_bound<F, G>(
        &self,
        version: usize,
        predicate: F,
        g: G,
        value: <T as Node>::Value,
    ) -> (r: usize)
        where
            F: Fn(&<T as Node>::Value, &<T as Node>::Value) -> bool,
            G: Fn(&<T as Node>::Value, <T as Node>::Value) -> <T as Node>::Value,
        requires
            self.wf(),
            version < self.spec_versions(),
            forall|a: &<T as Node>::Value, b: &<T as Node>::Value| predicate.requires((a, b)),
            forall|a: &<T as Node>::Value, b: <T as Node>::Value| g.requires((a, b)),
        ensures
            r < self.spec_n(),
            forall|
                p: spec_fn(<T as Node>::Value, <T as Node>::Value) -> bool,
                q: spec_fn(<T as Node>::Value, <T as Node>::Value) -> <T as Node>::Value,
            |
                #![trigger predicate_decides(predicate, p), residual_decides(g, q)]
                predicate_decides(predicate, p) && residual_decides(g, q)
                    && combine_associative::<T>() ==> r == lower_bound_descent(
                    self@[version as int],
                    0,
                    self.spec_n() - 1,
                    p,
                    q,
                    value,
                ),
    {
        let root = self.roots[version];
        Self::lower_bound_helper(
            &self.nodes,
            root,
            0,
            self.n - 1,
            predicate,
            g,
            value,
            Ghost(self.version_leaves@[version as int]),
        )
    }

    fn lower_bound_helper<F, G>(
        nodes: &Vec<PersistentWrapper<T>>,
        curr_node: usize,
        i: usize,
        j: usize,
        predicate: F,
        g: G,
        value: <T as Node>::Value,
        s: Ghost<Seq<T>>,
    ) -> (r: usize)
        where
            F: Fn(&<T as Node>::Value, &<T as Node>::Value) -> bool,
            G: Fn(&<T as Node>::Value, <T as Node>::Value) -> <T as Node>::Value,
        requires
            i <= j,
            j <= usize::MAX / 2,
            s@.len() == j - i + 1,
            represents_arena(nodes@, curr_node as int, s@),
            forall|a: &<T as Node>::Value, b: &<T as Node>::Value| predicate.requires((a, b)),
            forall|a: &<T as Node>::Value, b: <T as Node>::Value| g.requires((a, b)),
        ensures
            i <= r <= j,
            forall|
                p: spec_fn(<T as Node>::Value, <T as Node>::Value) -> bool,
                q: spec_fn(<T as Node>::Value, <T as Node>::Value) -> <T as Node>::Value,
            |
                #![trigger predicate_decides(predicate, p), residual_decides(g, q)]
                predicate_decides(predicate, p) && residual_decides(g, q)
                    && combine_associative::<T>() ==> r == lower_bound_descent(
                    s@,
                    i as int,
                    j as int,
                    p,
                    q,
                    value,
                ),
        decreases j - i,
    {
        if i == j {
            return i;
        }
        let mid = (i + j) / 2;
        let ghost ls = (s@.len() - 1) / 2 + 1;
        let ghost sl = s@.subrange(0, ls);
        let ghost sr = s@.subrange(ls, s@.len() as int);
        let w = nodes[curr_node];
        let l_opt = w.left_child();
        let r_opt = w.right_child();
        proof {
            assert(l_opt is Some && r_opt is Some);
            assert(mid - i + 1 == ls);
            assert(represents_arena(nodes@, l_opt->0.spec_get() as int, sl));
        }
        let left_node = l_opt.unwrap().get();
        let right_node = r_opt.unwrap().get();
        let left_value = nodes[left_node].get_inner().value();
        let cond = predicate(left_value, &value);
        if cond {
            let r = Self::lower_bound_helper(nodes, left_node, i, mid, predicate, g, value, Ghost(sl));
            proof {
                assert forall|
                    p: spec_fn(<T as Node>::Value, <T as Node>::Value) -> bool,
                    q: spec_fn(<T as Node>::Value, <T as Node>::Value) -> <T as Node>::Value,
                |
                    predicate_decides(predicate, p) && residual_decides(g, q)
                        && combine_associative::<T>() implies r == lower_bound_descent(
                    s@,
                    i as int,
                    j as int,
                    p,
                    q,
                    value,
                ) by {
                    lemma_arena_fold(nodes@, left_node as int, sl);
                    assert(sl =~= s@.subrange(0, (i as int + j as int) / 2 + 1 - i as int));
                    assert(cond == p(*left_value, value));
                    assert(p(seg_fold(sl).spec_value(), value));
                    assert(r == lower_bound_descent(sl, i as int, mid as int, p, q, value));
                }
            }
            r
        } else {
            let new_value = g(left_value, value);
            let r = Self::lower_bound_helper(
                nodes,
                right_node,
                mid + 1,
                j,
                predicate,
                g,
                new_value,
                Ghost(sr),
            );
            proof {
                assert forall|
                    p: spec_fn(<T as Node>::Value, <T as Node>::Value) -> bool,
                    q: spec_fn(<T as Node>::Value, <T as Node>::Value) -> <T as Node>::Value,
                |
                    predicate_decides(predicate, p) && residual_decides(g, q)
                        && combine_associative::<T>() implies r == lower_bound_descent(
                    s@,
                    i as int,
                    j as int,
                    p,
                    q,
                    value,
                ) by {
                    lemma_arena_fold(nodes@, left_node as int, sl);
                    assert(sl =~= s@.subrange(0, (i as int + j as int) / 2 + 1 - i as int));
                    assert(sr =~= s@.subrange(
                        (i as int + j as int) / 2 + 1 - i as int,
                        s@.len() as int,
                    ));
                    assert(cond == p(*left_value, value));
                    assert(!p(seg_fold(sl).spec_value(), value));
                    assert(new_value == q(seg_fold(sl).spec_value(), value));
                    assert(r == lower_bound_descent(
                        sr,
                        mid + 1 as int,
                        j as int,
                        p,
                        q,
                        new_value,
                    ));
                }
            }
            r
        }
    }
}

/// Once a version is recorded it never changes: an update appends one new
/// version and every previously recorded version's leaves — and therefore
/// every query answer against it — are exactly what they were before.
pub proof fn lemma_persistent_non_interference<T: Node>(
    pre: Seq<Seq<T>>,
    post: Seq<Seq<T>>,
    version: int,
    p: int,
    x: T,
    k: int,
)
    requires
        0 <= version < pre.len(),
        post == pre.push(pre[version].update(p, x)),
        0 <= k < pre.len(),
    ensures
        post[k] == pre[k],
        post.len() == pre.len() + 1,
{
}

} // verus!
