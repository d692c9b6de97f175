use crate::nodes::{combine_associative, Node};
use crate::segment_tree::range_fold::{lemma_seg_fold_concat, seg_fold};
use vstd::arithmetic::mul::lemma_mul_inequality;
use vstd::arithmetic::power2::{lemma_pow2_pos, lemma_pow2_unfold, pow2};
use vstd::prelude::*;

verus! {

// The recursive, lazy and lazy-recursive engines address an implicit complete
// binary tree inside a flat array: the children of slot `k` sit at `2k+1` and
// `2k+2`, the parent of `x > 0` at `(x-1)/2`. This module holds the index
// arithmetic those engines share: membership in a slot's subtree, the bound
// `4n` on every slot the recursion on `n` leaves can visit, and the
// representation predicate tying a subtree to the leaf sequence it summarizes.
/// `x` lies in the subtree rooted at slot `a`: the upward parent chain from
/// `x` passes through `a`.
pub(crate) open spec fn in_subtree(a: int, x: int) -> bool
    decreases x,
{
    if x <= a {
        x == a
    } else if x <= 0 {
        false
    } else {
        in_subtree(a, (x - 1) / 2)
    }
}

/// Everything in the subtree of `a` sits at or beyond `a`.
pub(crate) proof fn lemma_subtree_ge(a: int, x: int)
    requires
        in_subtree(a, x),
    ensures
        x >= a,
    decreases x,
{
}

/// Both children of `k` lie in its subtree.
pub(crate) proof fn lemma_child_in_subtree(k: int)
    requires
        k >= 0,
    ensures
        in_subtree(k, 2 * k + 1),
        in_subtree(k, 2 * k + 2),
{
    reveal_with_fuel(in_subtree, 3);
    assert((2 * k + 1 - 1) / 2 == k);
    assert((2 * k + 2 - 1) / 2 == k);
}

/// Subtree membership is transitive.
pub(crate) proof fn lemma_subtree_trans(a: int, b: int, x: int)
    requires
        in_subtree(a, b),
        in_subtree(b, x),
    ensures
        in_subtree(a, x),
    decreases x,
{
    lemma_subtree_ge(a, b);
    if x <= b {
    } else {
        lemma_subtree_trans(a, b, (x - 1) / 2);
    }
}

/// The subtrees of the two children of `k` share no slot.
pub(crate) proof fn lemma_siblings_disjoint(k: int, x: int)
    requires
        k >= 0,
        in_subtree(2 * k + 1, x),
    ensures
        !in_subtree(2 * k + 2, x),
    decreases x,
{
    lemma_subtree_ge(2 * k + 1, x);
    if x == 2 * k + 1 {
        if in_subtree(2 * k + 2, x) {
            lemma_subtree_ge(2 * k + 2, x);
        }
    } else {
        if in_subtree(2 * k + 2, x) {
            if x == 2 * k + 2 {
                assert((x - 1) / 2 == k);
                lemma_subtree_ge(2 * k + 1, k);
            } else {
                lemma_siblings_disjoint(k, (x - 1) / 2);
            }
        }
    }
}

/// A slot `k` never lies in the subtree of either of its children.
pub(crate) proof fn lemma_parent_outside_children(k: int)
    requires
        k >= 0,
    ensures
        !in_subtree(2 * k + 1, k),
        !in_subtree(2 * k + 2, k),
{
    if in_subtree(2 * k + 1, k) {
        lemma_subtree_ge(2 * k + 1, k);
    }
    if in_subtree(2 * k + 2, k) {
        lemma_subtree_ge(2 * k + 2, k);
    }
}

/// The top-down recursion over segments keeps every slot it visits within the
/// preallocated array: a slot `k` standing for a segment of `m1 + 1` leaves
/// out of `n` satisfies this bound, which pins `k` below `4n - 3`.
pub(crate) open spec fn seg_fits(k: int, m1: int, n: int) -> bool {
    exists|d: nat| k + 2 <= #[trigger] pow2(d + 1) && m1 * pow2(d) <= n - 1
}

/// The root slot fits for every non-empty leaf count.
pub(crate) proof fn lemma_fits_root(n: int)
    requires
        n >= 1,
    ensures
        seg_fits(0, n - 1, n),
{
    assert(0 + 2 <= pow2(0 + 1) && (n - 1) * pow2(0) <= n - 1) by {
        vstd::arithmetic::power2::lemma2_to64();
    }
}

/// A fitting slot stays below `4n - 3`, and when its segment has at least two
/// leaves its children fit for the split segments and stay below `4n - 5`.
pub(crate) proof fn lemma_fits_children(k: int, m1: int, n: int)
    requires
        seg_fits(k, m1, n),
        k >= 0,
        m1 >= 1,
        n >= 1,
    ensures
        k <= 2 * n - 4,
        seg_fits(2 * k + 1, m1 / 2, n),
        seg_fits(2 * k + 2, m1 - m1 / 2 - 1, n),
        2 * k + 2 <= 4 * n - 6,
{
    let d = choose|d: nat| k + 2 <= #[trigger] pow2(d + 1) && m1 * pow2(d) <= n - 1;
    lemma_pow2_pos(d);
    lemma_pow2_unfold(d + 1);
    lemma_pow2_unfold(d + 2);
    // With at least two leaves, 2^d is at most n - 1, which bounds k.
    assert(pow2(d) <= m1 * pow2(d)) by {
        lemma_mul_inequality(1, m1, pow2(d) as int);
    }
    assert(k + 2 <= 2 * (n - 1));
    // The left segment has (m1 / 2) + 1 leaves, the right the rest.
    assert((m1 / 2) * pow2((d + 1) as nat) <= n - 1) by {
        assert((m1 / 2) * (2 * pow2(d)) == (2 * (m1 / 2)) * pow2(d)) by {
            vstd::arithmetic::mul::lemma_mul_is_associative(2, m1 / 2, pow2(d) as int);
            vstd::arithmetic::mul::lemma_mul_is_commutative(m1 / 2, 2 * pow2(d) as int);
            vstd::arithmetic::mul::lemma_mul_is_associative(2, pow2(d) as int, m1 / 2);
            vstd::arithmetic::mul::lemma_mul_is_commutative(pow2(d) as int, m1 / 2);
        }
        lemma_mul_inequality(2 * (m1 / 2), m1, pow2(d) as int);
    }
    assert(2 * k + 1 + 2 <= pow2((d + 1) + 1));
    assert((m1 - m1 / 2 - 1) * pow2((d + 1) as nat) <= n - 1) by {
        assert((m1 - m1 / 2 - 1) * (2 * pow2(d)) == (2 * (m1 - m1 / 2 - 1)) * pow2(d)) by {
            vstd::arithmetic::mul::lemma_mul_is_associative(2, m1 - m1 / 2 - 1, pow2(d) as int);
            vstd::arithmetic::mul::lemma_mul_is_commutative(m1 - m1 / 2 - 1, 2 * pow2(d) as int);
            vstd::arithmetic::mul::lemma_mul_is_associative(2, pow2(d) as int, m1 - m1 / 2 - 1);
            vstd::arithmetic::mul::lemma_mul_is_commutative(pow2(d) as int, m1 - m1 / 2 - 1);
        }
        lemma_mul_inequality(2 * (m1 - m1 / 2 - 1), m1, pow2(d) as int);
    }
}

/// How many of the `m` leaves of a segment go to the left child: the split
/// point `mid = (i+j)/2` keeps `(m-1)/2 + 1` leaves on the left.
pub(crate) open spec fn left_len(m: int) -> int {
    (m - 1) / 2 + 1
}

/// The subtree rooted at slot `k` of the implicit heap array summarizes the
/// leaf sequence `s`: leaves hold the leaf node itself, and every inner slot
/// holds the combination of its two children, which summarize the two halves
/// of `s` split as the engines split their segments.
pub(crate) open spec fn represents_heap<T: Node>(nodes: Seq<T>, k: int, s: Seq<T>) -> bool
    decreases s.len(),
{
    if s.len() == 0 {
        false
    } else if s.len() == 1 {
        0 <= k < nodes.len() && nodes[k] == s[0]
    } else {
        let ls = left_len(s.len() as int);
        &&& 0 <= k < nodes.len()
        &&& represents_heap(nodes, 2 * k + 1, s.subrange(0, ls))
        &&& represents_heap(nodes, 2 * k + 2, s.subrange(ls, s.len() as int))
        &&& nodes[k] == T::spec_combine(nodes[2 * k + 1], nodes[2 * k + 2])
    }
}

/// Representation only reads slots inside the subtree of `k`, so it survives
/// any change outside that subtree.
pub(crate) proof fn lemma_represents_frame<T: Node>(
    nodes1: Seq<T>,
    nodes2: Seq<T>,
    k: int,
    s: Seq<T>,
)
    requires
        represents_heap(nodes1, k, s),
        nodes2.len() == nodes1.len(),
        forall|x: int| 0 <= x < nodes1.len() && in_subtree(k, x) ==> nodes2[x] == nodes1[x],
    ensures
        represents_heap(nodes2, k, s),
    decreases s.len(),
{
    assert(in_subtree(k, k));
    if s.len() > 1 {
        let ls = left_len(s.len() as int);
        lemma_subtree_ge(k, k);
        lemma_child_in_subtree(k);
        assert forall|x: int|
            0 <= x < nodes1.len() && in_subtree(2 * k + 1, x) implies nodes2[x] == nodes1[x] by {
            lemma_subtree_trans(k, 2 * k + 1, x);
        }
        assert forall|x: int|
            0 <= x < nodes1.len() && in_subtree(2 * k + 2, x) implies nodes2[x] == nodes1[x] by {
            lemma_subtree_trans(k, 2 * k + 2, x);
        }
        lemma_represents_frame(nodes1, nodes2, 2 * k + 1, s.subrange(0, ls));
        lemma_represents_frame(nodes1, nodes2, 2 * k + 2, s.subrange(ls, s.len() as int));
    }
}

/// Under associativity a represented slot holds exactly the fold of its leaf
/// sequence.
pub(crate) proof fn lemma_represents_fold<T: Node>(nodes: Seq<T>, k: int, s: Seq<T>)
    requires
        combine_associative::<T>(),
        represents_heap(nodes, k, s),
    ensures
        nodes[k] == seg_fold(s),
    decreases s.len(),
{
    if s.len() > 1 {
        let ls = left_len(s.len() as int);
        let sl = s.subrange(0, ls);
        let sr = s.subrange(ls, s.len() as int);
        lemma_represents_fold(nodes, 2 * k + 1, sl);
        lemma_represents_fold(nodes, 2 * k + 2, sr);
        lemma_seg_fold_concat::<T>(sl, sr);
        assert(sl + sr =~= s);
    }
}

} // verus!
