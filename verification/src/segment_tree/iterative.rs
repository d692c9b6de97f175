use crate::nodes::{combine_associative, Node};
use crate::segment_tree::range_fold::{lemma_seg_fold_concat, seg_fold};
use vstd::prelude::*;

verus! {

/// `a` lies on the upward halving chain from `x` in the bottom-up layout,
/// where the parent of slot `x > 0` is `x / 2`.
pub(crate) open spec fn on_parent_chain(a: int, x: int) -> bool
    decreases x,
{
    if x <= a {
        x == a
    } else if x <= 0 {
        false
    } else {
        on_parent_chain(a, x / 2)
    }
}

/// The first leaf position the subtree of slot `k` reaches: keep taking left
/// children until the leaf row `[n, 2n)` is hit.
pub(crate) open spec fn span_lo(n: int, k: int) -> int
    decreases 2 * n - k,
{
    if k <= 0 || k >= n {
        k - n
    } else {
        span_lo(n, 2 * k)
    }
}

/// One past the last leaf position the subtree of slot `k` reaches: keep
/// taking right children until the leaf row is hit.
pub(crate) open spec fn span_hi(n: int, k: int) -> int
    decreases 2 * n - k,
{
    if k <= 0 || k >= n {
        k - n + 1
    } else {
        span_hi(n, 2 * k + 1)
    }
}

/// The subtree of slot `k` summarizes one contiguous, non-wrapping run of
/// leaves: at every inner slot below it the left child's run ends exactly
/// where the right child's begins. In the bottom-up layout this fails for
/// some slots when `n` is not a power of two — the query walk only ever folds
/// slots where it holds.
pub(crate) open spec fn subtree_contiguous(n: int, k: int) -> bool
    decreases 2 * n - k,
{
    if k <= 0 || k >= n {
        true
    } else {
        &&& span_hi(n, 2 * k) == span_lo(n, 2 * k + 1)
        &&& subtree_contiguous(n, 2 * k)
        &&& subtree_contiguous(n, 2 * k + 1)
    }
}

/// Every slot's span boundaries stay within the leaf row.
pub(crate) proof fn lemma_span_bounds(n: int, k: int)
    requires
        n >= 1,
        1 <= k < 2 * n,
    ensures
        0 <= span_lo(n, k) < n,
        1 <= span_hi(n, k) <= n,
    decreases 2 * n - k,
{
    if 1 <= k && k < n {
        lemma_span_bounds(n, 2 * k);
        lemma_span_bounds(n, 2 * k + 1);
    }
}

/// A contiguous subtree spans a non-empty run.
pub(crate) proof fn lemma_span_order(n: int, k: int)
    requires
        n >= 1,
        1 <= k < 2 * n,
        subtree_contiguous(n, k),
    ensures
        span_lo(n, k) < span_hi(n, k),
    decreases 2 * n - k,
{
    if 1 <= k && k < n {
        lemma_span_order(n, 2 * k);
        lemma_span_order(n, 2 * k + 1);
    }
}

/// Under associativity, a slot whose subtree is contiguous holds exactly the
/// fold of the leaves its subtree spans.
pub(crate) proof fn lemma_node_fold<T: Node>(nodes: Seq<T>, n: int, k: int)
    requires
        combine_associative::<T>(),
        n >= 1,
        1 <= k < 2 * n,
        nodes.len() == 2 * n,
        forall|t: int|
            1 <= t < n ==> #[trigger] nodes[t] == T::spec_combine(nodes[2 * t], nodes[2 * t + 1]),
        subtree_contiguous(n, k),
    ensures
        nodes[k] == seg_fold(
            nodes.subrange(n, 2 * n).subrange(span_lo(n, k), span_hi(n, k)),
        ),
    decreases 2 * n - k,
{
    let leaves = nodes.subrange(n, 2 * n);
    if k >= n {
        assert(leaves.subrange(span_lo(n, k), span_hi(n, k)) =~= seq![nodes[k]]);
    } else {
        lemma_node_fold(nodes, n, 2 * k);
        lemma_node_fold(nodes, n, 2 * k + 1);
        lemma_span_bounds(n, 2 * k);
        lemma_span_bounds(n, 2 * k + 1);
        lemma_span_order(n, 2 * k);
        lemma_span_order(n, 2 * k + 1);
        let a = leaves.subrange(span_lo(n, 2 * k), span_hi(n, 2 * k));
        let b = leaves.subrange(span_lo(n, 2 * k + 1), span_hi(n, 2 * k + 1));
        lemma_seg_fold_concat::<T>(a, b);
        assert(a + b =~= leaves.subrange(span_lo(n, k), span_hi(n, k)));
    }
}

/// Along a run of slots whose spans are contiguous and meet end-to-start, the
/// span boundaries are ordered.
pub(crate) proof fn lemma_chain_bound(n: int, l: int, r: int)
    requires
        n >= 1,
        1 <= l < r <= 2 * n,
        forall|t: int| l <= t < r ==> #[trigger] subtree_contiguous(n, t),
        forall|t: int| l < t < r ==> span_hi(n, t - 1) == #[trigger] span_lo(n, t),
    ensures
        span_lo(n, l) <= span_lo(n, r - 1),
        span_hi(n, l) <= span_hi(n, r - 1),
    decreases r - l,
{
    lemma_span_order(n, l);
    if l + 1 < r {
        lemma_chain_bound(n, l + 1, r);
        lemma_span_order(n, l + 1);
    }
}

/// Segment tree with range queries and point updates, laid out bottom-up in a
/// flat array of `2n` slots: leaf `k` sits at `n + k` and the ancestor of
/// slots `2k` and `2k+1` at `k`. It uses half the memory of
/// [`Recursive`](crate::segment_tree::Recursive) but does not expose
/// `lower_bound` (its layout records no explicit range bounds per slot).
///
/// Its view is the sequence of leaf nodes.
pub struct Iterative<T: Node> {
    nodes: Vec<T>,
    n: usize,
}

impl<T: Node> View for Iterative<T> {
    type V = Seq<T>;

    closed spec fn view(&self) -> Seq<T> {
        self.nodes@.subrange(self.n as int, 2 * self.n as int)
    }
}

impl<T: Node> Iterative<T> {
    /// The tree's internal invariant: `2n` slots, every inner slot holding the
    /// combination of its two children.
    pub closed spec fn wf(&self) -> bool {
        &&& self.n <= usize::MAX / 4
        &&& self.nodes@.len() == 2 * self.n
        &&& forall|k: int|
            1 <= k < self.n ==> #[trigger] self.nodes@[k] == T::spec_combine(
                self.nodes@[2 * k],
                self.nodes@[2 * k + 1],
            )
    }

    /// The number of elements the tree was built over.
    pub closed spec fn spec_n(&self) -> usize {
        self.n
    }

    /// A well-formed tree's view has one leaf per element.
    pub proof fn lemma_view_len(&self)
        requires
            self.wf(),
        ensures
            self@.len() == self.spec_n(),
    {
    }


    /// Builds a segment tree from a slice; each element becomes one leaf.
    #[verifier::rlimit(100)]
    pub fn build(values: &[T]) -> (r: Self)
        requires
            values@.len() <= usize::MAX / 4,
        ensures
            r.wf(),
            r@ == values@,
            r.spec_n() == values@.len(),
    {
        let n = values.len();
        if n == 0 {
            let r = Iterative { nodes: Vec::new(), n: 0 };
            proof {
                assert(r@ =~= values@);
            }
            return r;
        }
        let mut nodes: Vec<T> = Vec::new();
        let filler = *vstd::slice::slice_index_get(values, 0);
        while nodes.len() < n
            invariant
                n == values@.len(),
                n <= usize::MAX / 4,
                nodes@.len() <= n,
            decreases n - nodes@.len(),
        {
            nodes.push(filler);
        }
        let mut t: usize = 0;
        while t < n
            invariant
                n == values@.len(),
                n <= usize::MAX / 4,
                t <= n,
                nodes@.len() == n + t,
                forall|x: int| n <= x < n + t ==> #[trigger] nodes@[x] == values@[x - n],
            decreases n - t,
        {
            nodes.push(*vstd::slice::slice_index_get(values, t));
            t += 1;
        }
        let mut i: usize = n;
        while i > 1
            invariant
                n == values@.len(),
                n <= usize::MAX / 4,
                1 <= i <= n,
                nodes@.len() == 2 * n,
                forall|x: int| n <= x < 2 * n ==> #[trigger] nodes@[x] == values@[x - n],
                forall|k: int|
                    i <= k < n ==> #[trigger] nodes@[k] == T::spec_combine(
                        nodes@[2 * k],
                        nodes@[2 * k + 1],
                    ),
            decreases i,
        {
            i -= 1;
            let c = T::combine(&nodes[2 * i], &nodes[2 * i + 1]);
            nodes[i] = c;
        }
        let r = Iterative { nodes, n };
        proof {
            assert(r@ =~= values@);
        }
        r
    }

    /// Sets the `i`-th element to `initialize(value)` and recomputes the
    /// summaries on the walk up to the root. All other leaves are untouched.
    pub fn update(&mut self, i: usize, value: &<T as Node>::Value)
        requires
            old(self).wf(),
            i < old(self).spec_n(),
        ensures
            final(self).wf(),
            final(self).spec_n() == old(self).spec_n(),
            final(self)@ == old(self)@.update(i as int, T::spec_initialize(*value)),
    {
        let ghost n = self.n as int;
        let ghost leaves0 = self@;
        let mut idx = i + self.n;
        let v = T::initialize(value);
        self.nodes[idx] = v;
        proof {
            assert(self@ =~= leaves0.update(i as int, T::spec_initialize(*value)));
        }
        idx = idx / 2;
        let ghost leaves1 = self@;
        proof {
            let li = i + n;
            assert forall|k: int|
                1 <= k < n && !on_parent_chain(k, idx as int) implies #[trigger] self.nodes@[k]
                    == T::spec_combine(self.nodes@[2 * k], self.nodes@[2 * k + 1]) by {
                if 2 * k == li || 2 * k + 1 == li {
                    assert(k == idx as int);
                } else {
                    assert(self.nodes@[k] == old(self).nodes@[k]);
                    assert(self.nodes@[2 * k] == old(self).nodes@[2 * k]);
                    assert(self.nodes@[2 * k + 1] == old(self).nodes@[2 * k + 1]);
                }
            }
        }
        while idx > 0
            invariant
                self.n as int == n,
                self.n <= usize::MAX / 4,
                self.nodes@.len() == 2 * n,
                idx < self.n,
                self@ == leaves1,
                forall|k: int|
                    1 <= k < n && !on_parent_chain(k, idx as int) ==> #[trigger] self.nodes@[k]
                        == T::spec_combine(self.nodes@[2 * k], self.nodes@[2 * k + 1]),
            decreases idx,
        {
            let ghost nodes_before = self.nodes@;
            let c = T::combine(&self.nodes[2 * idx], &self.nodes[2 * idx + 1]);
            self.nodes[idx] = c;
            proof {
                assert(self@ =~= leaves1);
                let ki = idx as int;
                assert forall|k: int|
                    1 <= k < n && !on_parent_chain(k, ki / 2) implies #[trigger] self.nodes@[k]
                        == T::spec_combine(self.nodes@[2 * k], self.nodes@[2 * k + 1]) by {
                    if k == ki {
                    } else {
                        assert(!on_parent_chain(k, ki));
                        assert(self.nodes@[k] == nodes_before[k]);
                        assert(2 * k != ki && 2 * k + 1 != ki);
                    }
                }
            }
            idx = idx / 2;
        }
        proof {
            assert forall|k: int|
                1 <= k < n implies #[trigger] self.nodes@[k] == T::spec_combine(
                self.nodes@[2 * k],
                self.nodes@[2 * k + 1],
            ) by {
                assert(!on_parent_chain(k, 0));
            }
        }
    }

    /// Returns the summary of the inclusive range `[left, right]`, or `None`
    /// if and only if the range is empty (`left > right`): the fold of the
    /// boundary slots gathered by the two accumulators, which under
    /// associativity is exactly the fold of the queried leaves.
    #[verifier::rlimit(100)]
    pub fn query(&self, left: usize, right: usize) -> (res: Option<T>)
        requires
            self.wf(),
            left < self.spec_n(),
            right < self.spec_n(),
        ensures
            res is Some <==> left <= right,
            left == right ==> res == Some(self@[left as int]),
            combine_associative::<T>() && left <= right ==> res == Some(
                seg_fold(self@.subrange(left as int, right + 1)),
            ),
    {
        let ghost n_ = self.n as int;
        let ghost leaves = self@;
        if left == right {
            let leaf = self.nodes[self.n + left];
            proof {
                assert(self@[left as int] == self.nodes@[self.n + left]);
                assert(leaves.subrange(left as int, right + 1) =~= seq![leaf]);
            }
            return Some(leaf);
        }
        let mut l = left + self.n;
        let mut r = right + self.n + 1;
        let mut ans_left: Option<T> = None;
        let mut ans_right: Option<T> = None;
        let ghost strong = combine_associative::<T>() && left < right;
        let ghost mut a_end: int = left as int;
        let ghost mut b_start: int = right + 1;
        proof {
            if strong {
                assert(span_lo(n_, left + n_) == left);
                assert(span_hi(n_, right + n_) == right + 1);
            }
        }
        while l < r
            invariant
                self.wf(),
                n_ == self.n,
                leaves == self@,
                left < self.n,
                right < self.n,
                1 <= l,
                r <= self.nodes@.len(),
                strong == (combine_associative::<T>() && left < right),
                left > right ==> ans_left is None && ans_right is None && l >= r,
                left < right ==> ans_left is Some || ans_right is Some || l < r,
                strong ==> {
                    &&& left as int <= a_end <= b_start <= right + 1
                    &&& (ans_left is Some ==> ans_left == Some(
                        seg_fold(leaves.subrange(left as int, a_end)),
                    ) && a_end > left)
                    &&& (ans_left is None ==> a_end == left)
                    &&& (ans_right is Some ==> ans_right == Some(
                        seg_fold(leaves.subrange(b_start, right + 1)),
                    ) && b_start <= right)
                    &&& (ans_right is None ==> b_start == right + 1)
                    &&& (l < r ==> a_end == span_lo(n_, l as int) && b_start == span_hi(n_, r - 1)
                        && (forall|t: int| l <= t < r ==> #[trigger] subtree_contiguous(n_, t)) && (
                    forall|t: int| l < t < r ==> span_hi(n_, t - 1) == #[trigger] span_lo(n_, t)))
                    &&& (l >= r ==> a_end == b_start)
                },
            decreases r,
        {
            let ghost l0 = l as int;
            let ghost r0 = r as int;
            if l % 2 == 1 {
                proof {
                    if strong {
                        lemma_node_fold(self.nodes@, n_, l as int);
                        lemma_span_bounds(n_, l as int);
                        lemma_span_order(n_, l as int);
                        if ans_left is Some {
                            lemma_seg_fold_concat::<T>(
                                leaves.subrange(left as int, a_end),
                                leaves.subrange(a_end, span_hi(n_, l as int)),
                            );
                            assert(leaves.subrange(left as int, a_end) + leaves.subrange(
                                a_end,
                                span_hi(n_, l as int),
                            ) =~= leaves.subrange(left as int, span_hi(n_, l as int)));
                        } else {
                            assert(leaves.subrange(a_end, span_hi(n_, l as int)) =~= leaves.subrange(
                                left as int,
                                span_hi(n_, l as int),
                            ));
                        }
                    }
                }
                ans_left = Some(
                    match ans_left {
                        None => self.nodes[l],
                        Some(node) => T::combine(&node, &self.nodes[l]),
                    },
                );
                proof {
                    if strong {
                        a_end = span_hi(n_, l as int);
                        lemma_chain_bound(n_, l as int, r as int);
                        if l as int + 1 < r as int {
                            assert(span_hi(n_, l as int) == span_lo(n_, l as int + 1));
                        }
                    }
                }
                l += 1;
            }
            if r % 2 == 1 {
                r -= 1;
                proof {
                    if strong {
                        lemma_node_fold(self.nodes@, n_, r as int);
                        lemma_span_bounds(n_, r as int);
                        lemma_span_order(n_, r as int);
                        if ans_right is Some {
                            lemma_seg_fold_concat::<T>(
                                leaves.subrange(span_lo(n_, r as int), b_start),
                                leaves.subrange(b_start, right + 1),
                            );
                            assert(leaves.subrange(span_lo(n_, r as int), b_start)
                                + leaves.subrange(b_start, right + 1) =~= leaves.subrange(
                                span_lo(n_, r as int),
                                right + 1,
                            ));
                        } else {
                            assert(leaves.subrange(span_lo(n_, r as int), b_start) =~= leaves.subrange(
                                span_lo(n_, r as int),
                                right + 1,
                            ));
                        }
                    }
                }
                ans_right = Some(
                    match ans_right {
                        None => self.nodes[r],
                        Some(node) => T::combine(&self.nodes[r], &node),
                    },
                );
                proof {
                    if strong {
                        b_start = span_lo(n_, r as int);
                        if (l as int) < r as int {
                            lemma_chain_bound(n_, l as int, r as int + 1);
                            assert(span_hi(n_, r as int - 1) == span_lo(n_, r as int));
                        }
                    }
                }
            }
            proof {
                assert(l % 2 == 0 && r % 2 == 0 ==> l / 2 < r / 2 || !(l < r));
                if strong {
                    if (l as int) < r as int {
                        // One level up: each parent merges two adjacent
                        // contiguous runs, and the runs stay consecutive.
                        assert forall|p: int| l / 2 <= p < r / 2 implies #[trigger] subtree_contiguous(
                            n_,
                            p,
                        ) by {
                            assert(subtree_contiguous(n_, 2 * p));
                            assert(subtree_contiguous(n_, 2 * p + 1));
                            assert(span_hi(n_, 2 * p) == span_lo(n_, 2 * p + 1));
                        }
                        assert forall|p: int| l / 2 < p < r / 2 implies span_hi(n_, p - 1)
                            == #[trigger] span_lo(n_, p) by {
                            assert(span_hi(n_, 2 * p - 1) == span_lo(n_, 2 * p));
                            assert(span_lo(n_, p) == span_lo(n_, 2 * p));
                            assert(span_hi(n_, p - 1) == span_hi(n_, 2 * p - 1));
                        }
                        assert(a_end == span_lo(n_, l as int / 2)) by {
                            assert(span_lo(n_, l as int / 2) == span_lo(n_, l as int));
                        }
                        assert(b_start == span_hi(n_, r as int / 2 - 1)) by {
                            assert(span_hi(n_, r as int / 2 - 1) == span_hi(n_, r as int - 1));
                        }
                    } else {
                        assert(a_end == b_start);
                    }
                }
            }
            l = l / 2;
            r = r / 2;
        }
        let res = match (ans_left, ans_right) {
            (Some(ans_left), Some(ans_right)) => Some(T::combine(&ans_left, &ans_right)),
            (Some(ans_left), None) => Some(ans_left),
            (None, Some(ans_right)) => Some(ans_right),
            (None, None) => None,
        };
        proof {
            if strong {
                if ans_left is Some && ans_right is Some {
                    lemma_seg_fold_concat::<T>(
                        leaves.subrange(left as int, a_end),
                        leaves.subrange(b_start, right + 1),
                    );
                    assert(leaves.subrange(left as int, a_end) + leaves.subrange(
                        b_start,
                        right + 1,
                    ) =~= leaves.subrange(left as int, right + 1));
                } else if ans_left is Some {
                    assert(leaves.subrange(left as int, a_end) =~= leaves.subrange(
                        left as int,
                        right + 1,
                    ));
                } else if ans_right is Some {
                    assert(leaves.subrange(b_start, right + 1) =~= leaves.subrange(
                        left as int,
                        right + 1,
                    ));
                }
            }
        }
        res
    }
}

} // verus!
