use crate::nodes::{adj, lazy_coherent, lazy_splittable, LazyNode, Node};
use crate::nodes::combine_associative;
use crate::segment_tree::heap::{
    in_subtree, lemma_child_in_subtree, lemma_subtree_ge, lemma_subtree_trans,
};
use crate::segment_tree::range_fold::{lemma_seg_fold_concat, seg_fold};
use vstd::prelude::*;

verus! {

// A lazy tree in the implicit heap layout carries pending updates that have
// been absorbed into a node's own summary but not yet into its descendants.
// The observable content of such a tree is therefore not the raw slot
// contents but the sequence of *logical leaves*: what each leaf becomes once
// every pending value above it has been pushed all the way down and absorbed.
// `leaves_of` computes that sequence; pushing, by design, never changes it.
/// Every slot the recursion from `k` over `[i, j]` can visit lies below
/// `len`. Only the array's length matters, so any same-length rewrite of the
/// array keeps the shape.
pub(crate) open spec fn lazy_shape(len: int, k: int, i: int, j: int) -> bool
    decreases j - i,
{
    if i >= j {
        0 <= k < len
    } else {
        let mid = (i + j) / 2;
        &&& 0 <= k < len
        &&& lazy_shape(len, 2 * k + 1, i, mid)
        &&& lazy_shape(len, 2 * k + 2, mid + 1, j)
    }
}

/// Unfolds one level of the shape: bounds for the slot and its children.
pub(crate) proof fn lemma_shape_children(len: int, k: int, i: int, j: int)
    requires
        i < j,
        lazy_shape(len, k, i, j),
    ensures
        0 <= k < len,
        lazy_shape(len, 2 * k + 1, i, (i + j) / 2),
        lazy_shape(len, 2 * k + 2, (i + j) / 2 + 1, j),
        0 <= 2 * k + 1 < len,
        0 <= 2 * k + 2 < len,
{
    let mid = (i + j) / 2;
    if i < mid {
        assert(lazy_shape(len, 2 * k + 1, i, mid));
    }
    if mid + 1 < j {
        assert(lazy_shape(len, 2 * k + 2, mid + 1, j));
    }
}

/// The logical leaves of the subtree at slot `k` over `[i, j]`, with `x`
/// standing in for the slot's own content: each leaf with all pending values
/// on its path composed into it and finally absorbed.
pub(crate) open spec fn leaves_of<T: LazyNode>(nodes: Seq<T>, x: T, k: int, i: int, j: int) -> Seq<T>
    decreases j - i,
{
    if i >= j {
        seq![x.spec_lazy_update(i, j)]
    } else {
        let mid = (i + j) / 2;
        leaves_of(nodes, adj(x, nodes[2 * k + 1]), 2 * k + 1, i, mid) + leaves_of(
            nodes,
            adj(x, nodes[2 * k + 2]),
            2 * k + 2,
            mid + 1,
            j,
        )
    }
}

/// A subtree over `[i, j]` has exactly `j - i + 1` logical leaves.
pub(crate) proof fn lemma_leaves_len<T: LazyNode>(nodes: Seq<T>, x: T, k: int, i: int, j: int)
    requires
        i <= j,
    ensures
        leaves_of(nodes, x, k, i, j).len() == j - i + 1,
    decreases j - i,
{
    if i < j {
        let mid = (i + j) / 2;
        lemma_leaves_len(nodes, adj(x, nodes[2 * k + 1]), 2 * k + 1, i, mid);
        lemma_leaves_len(nodes, adj(x, nodes[2 * k + 2]), 2 * k + 2, mid + 1, j);
    }
}

/// The logical leaves read only slots strictly inside the subtree of `k`, so
/// they survive any change to `k` itself or to slots outside its subtree.
pub(crate) proof fn lemma_leaves_frame<T: LazyNode>(
    nodes1: Seq<T>,
    nodes2: Seq<T>,
    x: T,
    k: int,
    i: int,
    j: int,
)
    requires
        i <= j,
        k >= 0,
        nodes2.len() == nodes1.len(),
        forall|z: int|
            0 <= z < nodes1.len() && in_subtree(k, z) && z != k ==> nodes2[z] == nodes1[z],
        lazy_shape(nodes1.len() as int, k, i, j),
    ensures
        leaves_of(nodes2, x, k, i, j) == leaves_of(nodes1, x, k, i, j),
    decreases j - i,
{
    if i < j {
        let mid = (i + j) / 2;
        lemma_shape_children(nodes1.len() as int, k, i, j);
        lemma_child_in_subtree(k);
        assert forall|z: int|
            0 <= z < nodes1.len() && in_subtree(2 * k + 1, z) && z != 2 * k + 1 implies nodes2[z]
            == nodes1[z] by {
            lemma_subtree_trans(k, 2 * k + 1, z);
            lemma_subtree_ge(2 * k + 1, z);
        }
        assert forall|z: int|
            0 <= z < nodes1.len() && in_subtree(2 * k + 2, z) && z != 2 * k + 2 implies nodes2[z]
            == nodes1[z] by {
            lemma_subtree_trans(k, 2 * k + 2, z);
            lemma_subtree_ge(2 * k + 2, z);
        }
        assert(nodes2[2 * k + 1] == nodes1[2 * k + 1]) by {
            lemma_subtree_ge(k, 2 * k + 1);
        }
        assert(nodes2[2 * k + 2] == nodes1[2 * k + 2]);
        lemma_leaves_frame(nodes1, nodes2, adj(x, nodes1[2 * k + 1]), 2 * k + 1, i, mid);
        lemma_leaves_frame(nodes1, nodes2, adj(x, nodes1[2 * k + 2]), 2 * k + 2, mid + 1, j);
    }
}

/// Under [`lazy_coherent`], staging a value on a subtree's content transforms
/// each logical leaf by staging and absorbing that value at its own position.
pub(crate) proof fn lemma_compose_leaves<T: LazyNode>(
    nodes: Seq<T>,
    c: T,
    k: int,
    i: int,
    j: int,
    v: T::Value,
)
    requires
        lazy_coherent::<T>(),
        i <= j,
        lazy_shape(nodes.len() as int, k, i, j),
    ensures
        leaves_of(nodes, c.spec_update_lazy_value(v), k, i, j) == Seq::new(
            (j - i + 1) as nat,
            |t: int|
                leaves_of(nodes, c, k, i, j)[t].spec_update_lazy_value(v).spec_lazy_update(
                    i + t,
                    i + t,
                ),
        ),
    decreases j - i,
{
    lemma_leaves_len(nodes, c, k, i, j);
    lemma_leaves_len(nodes, c.spec_update_lazy_value(v), k, i, j);
    if i >= j {
        assert(leaves_of(nodes, c.spec_update_lazy_value(v), k, i, j) =~= Seq::new(
            (j - i + 1) as nat,
            |t: int|
                leaves_of(nodes, c, k, i, j)[t].spec_update_lazy_value(v).spec_lazy_update(
                    i + t,
                    i + t,
                ),
        ));
    } else {
        let mid = (i + j) / 2;
        let nl = nodes[2 * k + 1];
        let nr = nodes[2 * k + 2];
        assert(adj(c.spec_update_lazy_value(v), nl) == adj(c, nl).spec_update_lazy_value(v));
        assert(adj(c.spec_update_lazy_value(v), nr) == adj(c, nr).spec_update_lazy_value(v));
        lemma_compose_leaves(nodes, adj(c, nl), 2 * k + 1, i, mid, v);
        lemma_compose_leaves(nodes, adj(c, nr), 2 * k + 2, mid + 1, j, v);
        lemma_leaves_len(nodes, adj(c, nl), 2 * k + 1, i, mid);
        lemma_leaves_len(nodes, adj(c, nr), 2 * k + 2, mid + 1, j);
        assert(leaves_of(nodes, c.spec_update_lazy_value(v), k, i, j) =~= Seq::new(
            (j - i + 1) as nat,
            |t: int|
                leaves_of(nodes, c, k, i, j)[t].spec_update_lazy_value(v).spec_lazy_update(
                    i + t,
                    i + t,
                ),
        ));
    }
}

/// The summary the subtree at slot `k` over `[i, j]` stands for once every
/// pending value in it is absorbed, combined in tree order; `x` stands in for
/// the slot's own content.
pub(crate) open spec fn log_of<T: LazyNode>(nodes: Seq<T>, x: T, k: int, i: int, j: int) -> T
    decreases j - i,
{
    if i >= j {
        x.spec_lazy_update(i, j)
    } else {
        let mid = (i + j) / 2;
        T::spec_combine(
            log_of(nodes, adj(x, nodes[2 * k + 1]), 2 * k + 1, i, mid),
            log_of(nodes, adj(x, nodes[2 * k + 2]), 2 * k + 2, mid + 1, j),
        )
    }
}

/// The value invariant of a lazy tree: once a slot's own pending value is
/// absorbed, its summary is the combination of its two children's logical
/// summaries (with the pending value pushed into them), all the way down.
pub(crate) open spec fn lazy_inv<T: LazyNode>(nodes: Seq<T>, x: T, k: int, i: int, j: int) -> bool
    decreases j - i,
{
    if i >= j {
        true
    } else {
        let mid = (i + j) / 2;
        &&& lazy_inv(nodes, adj(x, nodes[2 * k + 1]), 2 * k + 1, i, mid)
        &&& lazy_inv(nodes, adj(x, nodes[2 * k + 2]), 2 * k + 2, mid + 1, j)
        &&& x.spec_lazy_update(i, j) == T::spec_combine(
            log_of(nodes, adj(x, nodes[2 * k + 1]), 2 * k + 1, i, mid),
            log_of(nodes, adj(x, nodes[2 * k + 2]), 2 * k + 2, mid + 1, j),
        )
    }
}

/// Under the invariant, absorbing a slot's pending value yields exactly the
/// subtree's logical summary.
pub(crate) proof fn lemma_inv_absorb_is_log<T: LazyNode>(nodes: Seq<T>, x: T, k: int, i: int, j: int)
    requires
        i <= j,
        lazy_inv(nodes, x, k, i, j),
    ensures
        x.spec_lazy_update(i, j) == log_of(nodes, x, k, i, j),
{
}

/// A logical summary carries no pending value.
pub(crate) proof fn lemma_log_clean<T: LazyNode>(nodes: Seq<T>, x: T, k: int, i: int, j: int)
    requires
        i <= j,
    ensures
        log_of(nodes, x, k, i, j).spec_lazy() is None,
{
    if i >= j {
        T::lemma_lazy_update_clears(x, i, j);
    } else {
        let mid = (i + j) / 2;
        T::lemma_combine_no_lazy(
            log_of(nodes, adj(x, nodes[2 * k + 1]), 2 * k + 1, i, mid),
            log_of(nodes, adj(x, nodes[2 * k + 2]), 2 * k + 2, mid + 1, j),
        );
    }
}

/// Under associativity the logical summary is the fold of the logical leaves.
pub(crate) proof fn lemma_log_is_fold<T: LazyNode>(nodes: Seq<T>, x: T, k: int, i: int, j: int)
    requires
        combine_associative::<T>(),
        i <= j,
    ensures
        log_of(nodes, x, k, i, j) == seg_fold(leaves_of(nodes, x, k, i, j)),
    decreases j - i,
{
    if i < j {
        let mid = (i + j) / 2;
        let xl = adj(x, nodes[2 * k + 1]);
        let xr = adj(x, nodes[2 * k + 2]);
        lemma_log_is_fold(nodes, xl, 2 * k + 1, i, mid);
        lemma_log_is_fold(nodes, xr, 2 * k + 2, mid + 1, j);
        lemma_leaves_len(nodes, xl, 2 * k + 1, i, mid);
        lemma_leaves_len(nodes, xr, 2 * k + 2, mid + 1, j);
        lemma_seg_fold_concat::<T>(
            leaves_of(nodes, xl, 2 * k + 1, i, mid),
            leaves_of(nodes, xr, 2 * k + 2, mid + 1, j),
        );
    }
}

/// The logical summary and the invariant read only slots strictly inside the
/// subtree of `k`, so both survive any change to `k` itself or to slots
/// outside its subtree.
pub(crate) proof fn lemma_log_inv_frame<T: LazyNode>(
    nodes1: Seq<T>,
    nodes2: Seq<T>,
    x: T,
    k: int,
    i: int,
    j: int,
)
    requires
        i <= j,
        k >= 0,
        nodes2.len() == nodes1.len(),
        forall|z: int|
            0 <= z < nodes1.len() && in_subtree(k, z) && z != k ==> nodes2[z] == nodes1[z],
        lazy_shape(nodes1.len() as int, k, i, j),
    ensures
        log_of(nodes2, x, k, i, j) == log_of(nodes1, x, k, i, j),
        lazy_inv(nodes2, x, k, i, j) == lazy_inv(nodes1, x, k, i, j),
    decreases j - i,
{
    if i < j {
        let mid = (i + j) / 2;
        lemma_shape_children(nodes1.len() as int, k, i, j);
        lemma_child_in_subtree(k);
        assert forall|z: int|
            0 <= z < nodes1.len() && in_subtree(2 * k + 1, z) && z != 2 * k + 1 implies nodes2[z]
            == nodes1[z] by {
            lemma_subtree_trans(k, 2 * k + 1, z);
            lemma_subtree_ge(2 * k + 1, z);
        }
        assert forall|z: int|
            0 <= z < nodes1.len() && in_subtree(2 * k + 2, z) && z != 2 * k + 2 implies nodes2[z]
            == nodes1[z] by {
            lemma_subtree_trans(k, 2 * k + 2, z);
            lemma_subtree_ge(2 * k + 2, z);
        }
        assert(nodes2[2 * k + 1] == nodes1[2 * k + 1]) by {
            lemma_subtree_ge(k, 2 * k + 1);
        }
        assert(nodes2[2 * k + 2] == nodes1[2 * k + 2]);
        lemma_log_inv_frame(nodes1, nodes2, adj(x, nodes1[2 * k + 1]), 2 * k + 1, i, mid);
        lemma_log_inv_frame(nodes1, nodes2, adj(x, nodes1[2 * k + 2]), 2 * k + 2, mid + 1, j);
    }
}

/// Under the coherence and splitting laws, staging a value on a subtree's
/// content shifts its logical summary by exactly that staged value, and the
/// invariant survives the staging.
pub(crate) proof fn lemma_compose_log<T: LazyNode>(
    nodes: Seq<T>,
    c: T,
    k: int,
    i: int,
    j: int,
    v: T::Value,
)
    requires
        lazy_coherent::<T>(),
        lazy_splittable::<T>(),
        i <= j,
        j - i < usize::MAX,
        lazy_shape(nodes.len() as int, k, i, j),
    ensures
        log_of(nodes, c.spec_update_lazy_value(v), k, i, j) == log_of(
            nodes,
            c,
            k,
            i,
            j,
        ).spec_update_lazy_value(v).spec_lazy_update(i, j),
        lazy_inv(nodes, c, k, i, j) ==> lazy_inv(nodes, c.spec_update_lazy_value(v), k, i, j),
    decreases j - i,
{
    if i >= j {
    } else {
        let mid = (i + j) / 2;
        let nl = nodes[2 * k + 1];
        let nr = nodes[2 * k + 2];
        lemma_shape_children(nodes.len() as int, k, i, j);
        assert(adj(c.spec_update_lazy_value(v), nl) == adj(c, nl).spec_update_lazy_value(v));
        assert(adj(c.spec_update_lazy_value(v), nr) == adj(c, nr).spec_update_lazy_value(v));
        lemma_compose_log(nodes, adj(c, nl), 2 * k + 1, i, mid, v);
        lemma_compose_log(nodes, adj(c, nr), 2 * k + 2, mid + 1, j, v);
        let ll = log_of(nodes, adj(c, nl), 2 * k + 1, i, mid);
        let lr = log_of(nodes, adj(c, nr), 2 * k + 2, mid + 1, j);
        lemma_log_clean(nodes, adj(c, nl), 2 * k + 1, i, mid);
        lemma_log_clean(nodes, adj(c, nr), 2 * k + 2, mid + 1, j);
        // The splitting law moves the staged value through the combination.
        assert(T::spec_combine(ll, lr).spec_update_lazy_value(v).spec_lazy_update(i, j)
            == T::spec_combine(
            ll.spec_update_lazy_value(v).spec_lazy_update(i, mid),
            lr.spec_update_lazy_value(v).spec_lazy_update(mid + 1, j),
        ));
        if lazy_inv(nodes, c, k, i, j) {
            // The coherence law lets the staged value pass the absorption.
            assert(c.spec_update_lazy_value(v).spec_lazy_update(i, j) == c.spec_lazy_update(
                i,
                j,
            ).spec_update_lazy_value(v).spec_lazy_update(i, j));
        }
    }
}

} // verus!
