use crate::internal_utils::persistent_utils::PersistentWrapper;
use crate::nodes::{adj, combine_associative, lazy_coherent, lazy_splittable, LazyNode, Node};
use crate::segment_tree::lazy_recursive::ranged_stage;
use crate::segment_tree::range_fold::{
    int_max, int_min, lemma_seg_fold_concat, lower_bound_descent, predicate_decides,
    residual_decides, seg_fold,
};
use vstd::prelude::*;

verus! {

// The arena of a lazy persistent tree is shared between versions, and a push
// rewrites a slot in place while older versions still reach it. What stays
// fixed is each version's sequence of *logical leaves* — every leaf with all
// pending values above it composed in and absorbed. The model below describes
// one occurrence of a subtree: `x` is the value standing at its root (the
// slot's content with the ancestors' pending values already composed in), and
// the children are read through `x`'s recorded links, adjusted by `x`'s own
// pending value. A ghost map records, for every slot, the one segment it was
// allocated for; a slot is only ever reached at that segment, which is what
// makes a push at one segment harmless to every other subtree.
/// Every recorded child link in the arena points at an existing slot.
pub(crate) open spec fn links_bounded<T: LazyNode>(nodes: Seq<PersistentWrapper<T>>) -> bool {
    forall|k: int|
        0 <= k < nodes.len() ==> ((#[trigger] nodes[k].spec_left()) is Some
            ==> nodes[k].spec_left()->0.spec_get() < nodes.len()) && (nodes[k].spec_right() is Some
            ==> nodes[k].spec_right()->0.spec_get() < nodes.len())
}

/// The slot's recorded left child index.
pub(crate) open spec fn left_of<T: LazyNode>(x: PersistentWrapper<T>) -> int {
    x.spec_left()->0.spec_get() as int
}

/// The slot's recorded right child index.
pub(crate) open spec fn right_of<T: LazyNode>(x: PersistentWrapper<T>) -> int {
    x.spec_right()->0.spec_get() as int
}

/// The occurrence rooted at the value `x` over `[i, j]` is well formed: both
/// children exist, sit inside the arena, are recorded for exactly the two half
/// segments, and root well-formed occurrences themselves (with `x`'s pending
/// value pushed into them).
pub(crate) open spec fn arena_ok<T: LazyNode>(
    nodes: Seq<PersistentWrapper<T>>,
    seg: Map<int, (int, int)>,
    x: PersistentWrapper<T>,
    i: int,
    j: int,
) -> bool
    decreases j - i,
{
    if i >= j {
        true
    } else {
        let mid = (i + j) / 2;
        &&& x.spec_left() is Some
        &&& x.spec_right() is Some
        &&& 0 <= left_of(x) < nodes.len()
        &&& 0 <= right_of(x) < nodes.len()
        &&& seg.contains_key(left_of(x)) && seg[left_of(x)] == (i, mid)
        &&& seg.contains_key(right_of(x)) && seg[right_of(x)] == (mid + 1, j)
        &&& arena_ok(nodes, seg, adj(x, nodes[left_of(x)]), i, mid)
        &&& arena_ok(nodes, seg, adj(x, nodes[right_of(x)]), mid + 1, j)
    }
}

/// The logical leaves of the occurrence rooted at `x` over `[i, j]`.
pub(crate) open spec fn arena_leaves<T: LazyNode>(
    nodes: Seq<PersistentWrapper<T>>,
    x: PersistentWrapper<T>,
    i: int,
    j: int,
) -> Seq<T>
    decreases j - i,
{
    if i >= j {
        seq![x.spec_lazy_update(i, j).spec_inner()]
    } else {
        let mid = (i + j) / 2;
        arena_leaves(nodes, adj(x, nodes[left_of(x)]), i, mid) + arena_leaves(
            nodes,
            adj(x, nodes[right_of(x)]),
            mid + 1,
            j,
        )
    }
}

/// An occurrence over `[i, j]` has exactly `j - i + 1` logical leaves.
pub(crate) proof fn lemma_arena_leaves_len<T: LazyNode>(
    nodes: Seq<PersistentWrapper<T>>,
    x: PersistentWrapper<T>,
    i: int,
    j: int,
)
    requires
        i <= j,
    ensures
        arena_leaves(nodes, x, i, j).len() == j - i + 1,
    decreases j - i,
{
    if i < j {
        let mid = (i + j) / 2;
        lemma_arena_leaves_len(nodes, adj(x, nodes[left_of(x)]), i, mid);
        lemma_arena_leaves_len(nodes, adj(x, nodes[right_of(x)]), mid + 1, j);
    }
}

/// The summary the occurrence rooted at `x` over `[i, j]` stands for once
/// every pending value in it is absorbed, combined in tree order.
pub(crate) open spec fn arena_log<T: LazyNode>(
    nodes: Seq<PersistentWrapper<T>>,
    x: PersistentWrapper<T>,
    i: int,
    j: int,
) -> T
    decreases j - i,
{
    if i >= j {
        x.spec_lazy_update(i, j).spec_inner()
    } else {
        let mid = (i + j) / 2;
        T::spec_combine(
            arena_log(nodes, adj(x, nodes[left_of(x)]), i, mid),
            arena_log(nodes, adj(x, nodes[right_of(x)]), mid + 1, j),
        )
    }
}

/// The value invariant of a lazy persistent occurrence: once its own pending
/// value is absorbed, its summary is the combination of its two children's
/// logical summaries (with the pending value pushed into them), all the way
/// down.
pub(crate) open spec fn arena_inv<T: LazyNode>(
    nodes: Seq<PersistentWrapper<T>>,
    x: PersistentWrapper<T>,
    i: int,
    j: int,
) -> bool
    decreases j - i,
{
    if i >= j {
        true
    } else {
        let mid = (i + j) / 2;
        &&& arena_inv(nodes, adj(x, nodes[left_of(x)]), i, mid)
        &&& arena_inv(nodes, adj(x, nodes[right_of(x)]), mid + 1, j)
        &&& x.spec_lazy_update(i, j).spec_inner() == T::spec_combine(
            arena_log(nodes, adj(x, nodes[left_of(x)]), i, mid),
            arena_log(nodes, adj(x, nodes[right_of(x)]), mid + 1, j),
        )
    }
}

/// Under the invariant, absorbing an occurrence's pending value yields exactly
/// its logical summary.
pub(crate) proof fn lemma_arena_inv_absorb_is_log<T: LazyNode>(
    nodes: Seq<PersistentWrapper<T>>,
    x: PersistentWrapper<T>,
    i: int,
    j: int,
)
    requires
        i <= j,
        arena_inv(nodes, x, i, j),
    ensures
        x.spec_lazy_update(i, j).spec_inner() == arena_log(nodes, x, i, j),
{
}

/// A logical summary carries no pending value.
pub(crate) proof fn lemma_arena_log_clean<T: LazyNode>(
    nodes: Seq<PersistentWrapper<T>>,
    x: PersistentWrapper<T>,
    i: int,
    j: int,
)
    requires
        i <= j,
    ensures
        arena_log(nodes, x, i, j).spec_lazy() is None,
{
    if i >= j {
        crate::internal_utils::persistent_utils::lemma_wrapper_lazy(x, arbitrary(), i, j);
        T::lemma_lazy_update_clears(x.spec_inner(), i, j);
    } else {
        let mid = (i + j) / 2;
        T::lemma_combine_no_lazy(
            arena_log(nodes, adj(x, nodes[left_of(x)]), i, mid),
            arena_log(nodes, adj(x, nodes[right_of(x)]), mid + 1, j),
        );
    }
}

/// Under associativity the logical summary is the fold of the logical leaves.
pub(crate) proof fn lemma_arena_log_is_fold<T: LazyNode>(
    nodes: Seq<PersistentWrapper<T>>,
    x: PersistentWrapper<T>,
    i: int,
    j: int,
)
    requires
        combine_associative::<T>(),
        i <= j,
    ensures
        arena_log(nodes, x, i, j) == seg_fold(arena_leaves(nodes, x, i, j)),
    decreases j - i,
{
    if i < j {
        let mid = (i + j) / 2;
        let xl = adj(x, nodes[left_of(x)]);
        let xr = adj(x, nodes[right_of(x)]);
        lemma_arena_log_is_fold(nodes, xl, i, mid);
        lemma_arena_log_is_fold(nodes, xr, mid + 1, j);
        lemma_arena_leaves_len(nodes, xl, i, mid);
        lemma_arena_leaves_len(nodes, xr, mid + 1, j);
        lemma_seg_fold_concat::<T>(
            arena_leaves(nodes, xl, i, mid),
            arena_leaves(nodes, xr, mid + 1, j),
        );
    }
}

/// Well-formedness and the logical leaves depend on the root value only
/// through its links and its whole value; two values with the same links and
/// pending root the same structure.
pub(crate) proof fn lemma_arena_ok_links<T: LazyNode>(
    nodes: Seq<PersistentWrapper<T>>,
    seg: Map<int, (int, int)>,
    x: PersistentWrapper<T>,
    y: PersistentWrapper<T>,
    i: int,
    j: int,
)
    requires
        arena_ok(nodes, seg, x, i, j),
        y.spec_left() == x.spec_left(),
        y.spec_right() == x.spec_right(),
    ensures
        arena_ok(nodes, seg, y, i, j),
    decreases j - i,
{
    if i < j {
        let mid = (i + j) / 2;
        crate::internal_utils::persistent_utils::lemma_adj_links(x, nodes[left_of(x)]);
        crate::internal_utils::persistent_utils::lemma_adj_links(x, nodes[right_of(x)]);
        crate::internal_utils::persistent_utils::lemma_adj_links(y, nodes[left_of(x)]);
        crate::internal_utils::persistent_utils::lemma_adj_links(y, nodes[right_of(x)]);
        lemma_arena_ok_links(nodes, seg, adj(x, nodes[left_of(x)]), adj(y, nodes[left_of(x)]), i, mid);
        lemma_arena_ok_links(
            nodes,
            seg,
            adj(x, nodes[right_of(x)]),
            adj(y, nodes[right_of(x)]),
            mid + 1,
            j,
        );
    }
}

/// `(a, b)` lies inside `(lo, hi)`.
pub(crate) open spec fn seg_within(s: (int, int), lo: int, hi: int) -> bool {
    lo <= s.0 && s.1 <= hi
}

/// An occurrence reads only slots recorded for subsegments of its own
/// segment, so it survives any change confined to other slots, and any
/// extension of the arena or the segment record.
pub(crate) proof fn lemma_arena_frame<T: LazyNode>(
    nodes0: Seq<PersistentWrapper<T>>,
    nodes1: Seq<PersistentWrapper<T>>,
    seg0: Map<int, (int, int)>,
    seg1: Map<int, (int, int)>,
    x: PersistentWrapper<T>,
    i: int,
    j: int,
)
    requires
        arena_ok(nodes0, seg0, x, i, j),
        nodes0.len() <= nodes1.len(),
        forall|k: int|
            #[trigger] seg0.contains_key(k) ==> seg1.contains_key(k) && seg1[k] == seg0[k],
        forall|z: int|
            0 <= z < nodes0.len() && seg0.contains_key(z) && seg_within(#[trigger] seg0[z], i, j)
                && seg0[z].1 - seg0[z].0 < j - i ==> nodes1[z] == nodes0[z],
    ensures
        arena_ok(nodes1, seg1, x, i, j),
        arena_leaves(nodes1, x, i, j) == arena_leaves(nodes0, x, i, j),
        arena_log(nodes1, x, i, j) == arena_log(nodes0, x, i, j),
        arena_inv(nodes1, x, i, j) == arena_inv(nodes0, x, i, j),
    decreases j - i,
{
    if i < j {
        let mid = (i + j) / 2;
        assert(nodes1[left_of(x)] == nodes0[left_of(x)]);
        assert(nodes1[right_of(x)] == nodes0[right_of(x)]);
        lemma_arena_frame(nodes0, nodes1, seg0, seg1, adj(x, nodes0[left_of(x)]), i, mid);
        lemma_arena_frame(nodes0, nodes1, seg0, seg1, adj(x, nodes0[right_of(x)]), mid + 1, j);
    }
}

/// Under the coherence laws, composing a value into an occurrence's root
/// transforms each logical leaf by staging and absorbing that value at its own
/// position.
pub(crate) proof fn lemma_arena_compose<T: LazyNode>(
    nodes: Seq<PersistentWrapper<T>>,
    seg: Map<int, (int, int)>,
    c: PersistentWrapper<T>,
    i: int,
    j: int,
    v: <T as Node>::Value,
)
    requires
        lazy_coherent::<T>(),
        i <= j,
        arena_ok(nodes, seg, c, i, j),
    ensures
        arena_leaves(nodes, c.spec_update_lazy_value(v), i, j) == Seq::new(
            (j - i + 1) as nat,
            |t: int|
                arena_leaves(nodes, c, i, j)[t].spec_update_lazy_value(v).spec_lazy_update(
                    i + t,
                    i + t,
                ),
        ),
    decreases j - i,
{
    crate::internal_utils::persistent_utils::lemma_arena_wrapper_lazy_coherent::<T>();
    lemma_arena_leaves_len(nodes, c, i, j);
    lemma_arena_leaves_len(nodes, c.spec_update_lazy_value(v), i, j);
    crate::internal_utils::persistent_utils::lemma_wrapper_lazy(c, v, i, j);
    if i >= j {
        let w0 = c.spec_lazy_update(i, j);
        crate::internal_utils::persistent_utils::lemma_wrapper_lazy(w0, v, i, j);
        crate::internal_utils::persistent_utils::lemma_wrapper_lazy(
            w0.spec_update_lazy_value(v),
            v,
            i,
            j,
        );
        crate::internal_utils::persistent_utils::lemma_wrapper_lazy(
            c.spec_update_lazy_value(v),
            v,
            i,
            j,
        );
        assert(c.spec_update_lazy_value(v).spec_lazy_update(i, j) == c.spec_lazy_update(
            i,
            j,
        ).spec_update_lazy_value(v).spec_lazy_update(i, j));
        assert(arena_leaves(nodes, c.spec_update_lazy_value(v), i, j) =~= Seq::new(
            (j - i + 1) as nat,
            |t: int|
                arena_leaves(nodes, c, i, j)[t].spec_update_lazy_value(v).spec_lazy_update(
                    i + t,
                    i + t,
                ),
        ));
    } else {
        let mid = (i + j) / 2;
        let cv = c.spec_update_lazy_value(v);
        crate::internal_utils::persistent_utils::lemma_wrapper_compose_links(c, v);
        let nl = nodes[left_of(c)];
        let nr = nodes[right_of(c)];
        assert(adj(cv, nl) == adj(c, nl).spec_update_lazy_value(v));
        assert(adj(cv, nr) == adj(c, nr).spec_update_lazy_value(v));
        crate::internal_utils::persistent_utils::lemma_adj_links(c, nl);
        crate::internal_utils::persistent_utils::lemma_adj_links(c, nr);
        crate::internal_utils::persistent_utils::lemma_adj_links(cv, nl);
        crate::internal_utils::persistent_utils::lemma_adj_links(cv, nr);
        lemma_arena_ok_links(nodes, seg, adj(c, nl), adj(cv, nl), i, mid);
        lemma_arena_ok_links(nodes, seg, adj(c, nr), adj(cv, nr), mid + 1, j);
        lemma_arena_compose(nodes, seg, adj(c, nl), i, mid, v);
        lemma_arena_compose(nodes, seg, adj(c, nr), mid + 1, j, v);
        lemma_arena_leaves_len(nodes, adj(c, nl), i, mid);
        lemma_arena_leaves_len(nodes, adj(c, nr), mid + 1, j);
        assert(arena_leaves(nodes, cv, i, j) =~= Seq::new(
            (j - i + 1) as nat,
            |t: int|
                arena_leaves(nodes, c, i, j)[t].spec_update_lazy_value(v).spec_lazy_update(
                    i + t,
                    i + t,
                ),
        ));
    }
}

/// Under the coherence and splitting laws, staging a value on an occurrence's
/// root shifts its logical summary by exactly that staged value, and the value
/// invariant survives the staging.
pub(crate) proof fn lemma_arena_compose_log<T: LazyNode>(
    nodes: Seq<PersistentWrapper<T>>,
    seg: Map<int, (int, int)>,
    c: PersistentWrapper<T>,
    i: int,
    j: int,
    v: <T as Node>::Value,
)
    requires
        lazy_coherent::<T>(),
        lazy_splittable::<T>(),
        i <= j,
        j - i < usize::MAX,
        arena_ok(nodes, seg, c, i, j),
    ensures
        arena_log(nodes, c.spec_update_lazy_value(v), i, j) == arena_log(
            nodes,
            c,
            i,
            j,
        ).spec_update_lazy_value(v).spec_lazy_update(i, j),
        arena_inv(nodes, c, i, j) ==> arena_inv(nodes, c.spec_update_lazy_value(v), i, j),
    decreases j - i,
{
    crate::internal_utils::persistent_utils::lemma_arena_wrapper_lazy_coherent::<T>();
    let cv = c.spec_update_lazy_value(v);
    crate::internal_utils::persistent_utils::lemma_wrapper_lazy(c, v, i, j);
    if i >= j {
        let w0 = c.spec_lazy_update(i, j);
        crate::internal_utils::persistent_utils::lemma_wrapper_lazy(w0, v, i, j);
        crate::internal_utils::persistent_utils::lemma_wrapper_lazy(
            w0.spec_update_lazy_value(v),
            v,
            i,
            j,
        );
        crate::internal_utils::persistent_utils::lemma_wrapper_lazy(cv, v, i, j);
        // The coherence law lets the staged value pass the absorption.
        assert(c.spec_inner().spec_update_lazy_value(v).spec_lazy_update(i, j)
            == c.spec_inner().spec_lazy_update(i, j).spec_update_lazy_value(v).spec_lazy_update(
            i,
            j,
        ));
    } else {
        let mid = (i + j) / 2;
        crate::internal_utils::persistent_utils::lemma_wrapper_compose_links(c, v);
        let nl = nodes[left_of(c)];
        let nr = nodes[right_of(c)];
        assert(adj(cv, nl) == adj(c, nl).spec_update_lazy_value(v));
        assert(adj(cv, nr) == adj(c, nr).spec_update_lazy_value(v));
        crate::internal_utils::persistent_utils::lemma_adj_links(c, nl);
        crate::internal_utils::persistent_utils::lemma_adj_links(c, nr);
        crate::internal_utils::persistent_utils::lemma_adj_links(cv, nl);
        crate::internal_utils::persistent_utils::lemma_adj_links(cv, nr);
        lemma_arena_ok_links(nodes, seg, adj(c, nl), adj(cv, nl), i, mid);
        lemma_arena_ok_links(nodes, seg, adj(c, nr), adj(cv, nr), mid + 1, j);
        lemma_arena_compose_log(nodes, seg, adj(c, nl), i, mid, v);
        lemma_arena_compose_log(nodes, seg, adj(c, nr), mid + 1, j, v);
        let ll = arena_log(nodes, adj(c, nl), i, mid);
        let lr = arena_log(nodes, adj(c, nr), mid + 1, j);
        lemma_arena_log_clean(nodes, adj(c, nl), i, mid);
        lemma_arena_log_clean(nodes, adj(c, nr), mid + 1, j);
        // The splitting law moves the staged value through the combination.
        assert(T::spec_combine(ll, lr).spec_update_lazy_value(v).spec_lazy_update(i, j)
            == T::spec_combine(
            ll.spec_update_lazy_value(v).spec_lazy_update(i, mid),
            lr.spec_update_lazy_value(v).spec_lazy_update(mid + 1, j),
        ));
        if arena_inv(nodes, c, i, j) {
            // The coherence law lets the staged value pass the absorption.
            crate::internal_utils::persistent_utils::lemma_wrapper_lazy(
                c.spec_lazy_update(i, j),
                v,
                i,
                j,
            );
            crate::internal_utils::persistent_utils::lemma_wrapper_lazy(cv, v, i, j);
            assert(c.spec_inner().spec_update_lazy_value(v).spec_lazy_update(i, j)
                == c.spec_inner().spec_lazy_update(i, j).spec_update_lazy_value(
                v,
            ).spec_lazy_update(i, j));
        }
    }
}

/// How a push rewrites the arena: slot `curr` (recorded for `[i, j]`) absorbs
/// its pending value; if it had one and is no leaf, two fresh slots are
/// appended holding its children with the pending value composed in, and
/// `curr` is repointed at them. Nothing else changes.
pub(crate) open spec fn push_rel<T: LazyNode>(
    nodes0: Seq<PersistentWrapper<T>>,
    nodes1: Seq<PersistentWrapper<T>>,
    seg0: Map<int, (int, int)>,
    seg1: Map<int, (int, int)>,
    curr: int,
    i: int,
    j: int,
) -> bool {
    &&& 0 <= curr < nodes0.len()
    &&& seg0.contains_key(curr) && seg0[curr] == (i, j)
    &&& forall|z: int| 0 <= z < nodes0.len() && z != curr ==> nodes1[z] == #[trigger] nodes0[z]
    &&& forall|k: int|
        #[trigger] seg0.contains_key(k) ==> seg1.contains_key(k) && seg1[k] == seg0[k]
    &&& if nodes0[curr].spec_lazy() is None || i >= j {
        nodes1 =~= nodes0.update(curr, nodes0[curr].spec_lazy_update(i, j)) && seg1 == seg0
    } else {
        let mid = (i + j) / 2;
        let a = nodes0.len() as int;
        let b = nodes0.len() as int + 1;
        &&& nodes0[curr].spec_left() is Some
        &&& nodes0[curr].spec_right() is Some
        &&& 0 <= left_of(nodes0[curr]) < nodes0.len()
        &&& 0 <= right_of(nodes0[curr]) < nodes0.len()
        &&& nodes1.len() == nodes0.len() + 2
        &&& nodes1[a] == adj(nodes0[curr], nodes0[left_of(nodes0[curr])])
        &&& nodes1[b] == adj(nodes0[curr], nodes0[right_of(nodes0[curr])])
        &&& nodes1[curr].spec_inner() == nodes0[curr].spec_lazy_update(i, j).spec_inner()
        &&& nodes1[curr].spec_left() is Some && left_of(nodes1[curr]) == a
        &&& nodes1[curr].spec_right() is Some && right_of(nodes1[curr]) == b
        &&& nodes1[curr].spec_lazy() is None
        &&& seg1 == seg0.insert(a, (i, mid)).insert(b, (mid + 1, j))
        &&& !seg0.contains_key(a) && !seg0.contains_key(b)
    }
}

/// A push leaves the pushed occurrence well formed and its logical leaves
/// exactly what they were.
pub(crate) proof fn lemma_push_local<T: LazyNode>(
    nodes0: Seq<PersistentWrapper<T>>,
    nodes1: Seq<PersistentWrapper<T>>,
    seg0: Map<int, (int, int)>,
    seg1: Map<int, (int, int)>,
    curr: int,
    i: int,
    j: int,
)
    requires
        i <= j,
        push_rel(nodes0, nodes1, seg0, seg1, curr, i, j),
        arena_ok(nodes0, seg0, nodes0[curr], i, j),
    ensures
        arena_ok(nodes1, seg1, nodes1[curr], i, j),
        arena_leaves(nodes1, nodes1[curr], i, j) == arena_leaves(nodes0, nodes0[curr], i, j),
        arena_log(nodes1, nodes1[curr], i, j) == arena_log(nodes0, nodes0[curr], i, j),
        arena_inv(nodes0, nodes0[curr], i, j) ==> arena_inv(nodes1, nodes1[curr], i, j),
{
    let x = nodes0[curr];
    crate::internal_utils::persistent_utils::lemma_wrapper_absorb_links(x, i, j);
    <PersistentWrapper<T> as LazyNode>::lemma_lazy_update_clears(x, i, j);
    if x.spec_lazy() is None || i >= j {
        if x.spec_lazy() is None {
            <PersistentWrapper<T> as LazyNode>::lemma_lazy_update_noop(x, i, j);
            assert(nodes1 =~= nodes0);
            lemma_arena_ok_links(nodes0, seg0, x, nodes1[curr], i, j);
            if i < j {
                assert(arena_leaves(nodes1, nodes1[curr], i, j) == arena_leaves(
                    nodes0,
                    nodes0[curr],
                    i,
                    j,
                ));
            } else {
                <PersistentWrapper<T> as LazyNode>::lemma_lazy_update_noop(
                    x.spec_lazy_update(i, j),
                    i,
                    j,
                );
            }
        } else {
            // A leaf absorbing its pending value: the single logical leaf is
            // unchanged because absorbing twice is absorbing once.
            <PersistentWrapper<T> as LazyNode>::lemma_lazy_update_noop(
                x.spec_lazy_update(i, j),
                i,
                j,
            );
            assert(arena_log(nodes1, nodes1[curr], i, j) == arena_log(nodes0, x, i, j));
        }
    } else {
        let mid = (i + j) / 2;
        let a = nodes0.len() as int;
        let b = a + 1;
        let xl = adj(x, nodes0[left_of(x)]);
        let xr = adj(x, nodes0[right_of(x)]);
        // The fresh copies hold exactly the pending-adjusted children, and
        // their subtrees (recorded strictly inside the halves) are untouched.
        assert forall|z: int|
            0 <= z < nodes0.len() && seg0.contains_key(z) && seg_within(
                #[trigger] seg0[z],
                i,
                mid,
            ) && seg0[z].1 - seg0[z].0 < mid - i implies nodes1[z] == nodes0[z] by {
            if z == curr {
                assert(seg0[curr] == (i, j));
            }
        }
        lemma_arena_frame(nodes0, nodes1, seg0, seg1, xl, i, mid);
        assert forall|z: int|
            0 <= z < nodes0.len() && seg0.contains_key(z) && seg_within(
                #[trigger] seg0[z],
                mid + 1,
                j,
            ) && seg0[z].1 - seg0[z].0 < j - (mid + 1) implies nodes1[z] == nodes0[z] by {
            if z == curr {
                assert(seg0[curr] == (i, j));
            }
        }
        lemma_arena_frame(nodes0, nodes1, seg0, seg1, xr, mid + 1, j);
        let y = nodes1[curr];
        assert(adj(y, nodes1[a]) == nodes1[a]);
        assert(adj(y, nodes1[b]) == nodes1[b]);
        assert(arena_ok(nodes1, seg1, y, i, j));
        assert(arena_leaves(nodes1, y, i, j) == arena_leaves(nodes0, nodes0[curr], i, j));
        // The absorbed slot's own summary is unchanged, so the logical
        // summary and the value invariant carry over as well.
        <PersistentWrapper<T> as LazyNode>::lemma_lazy_update_noop(y, i, j);
        assert(arena_log(nodes1, y, i, j) == arena_log(nodes0, nodes0[curr], i, j));
        if arena_inv(nodes0, nodes0[curr], i, j) {
            assert(arena_inv(nodes1, y, i, j));
        }
    }
}

/// A push preserves the pushed occurrence even when an ancestor's pending
/// value is composed on top of it.
pub(crate) proof fn lemma_push_chain<T: LazyNode>(
    nodes0: Seq<PersistentWrapper<T>>,
    nodes1: Seq<PersistentWrapper<T>>,
    seg0: Map<int, (int, int)>,
    seg1: Map<int, (int, int)>,
    curr: int,
    i: int,
    j: int,
    q: Option<<T as Node>::Value>,
)
    requires
        i <= j,
        push_rel(nodes0, nodes1, seg0, seg1, curr, i, j),
        arena_ok(nodes0, seg0, nodes0[curr], i, j),
    ensures
        arena_ok(
            nodes1,
            seg1,
            match q {
                Some(v) => nodes1[curr].spec_update_lazy_value(v),
                None => nodes1[curr],
            },
            i,
            j,
        ),
        lazy_coherent::<T>() ==> arena_leaves(
            nodes1,
            match q {
                Some(v) => nodes1[curr].spec_update_lazy_value(v),
                None => nodes1[curr],
            },
            i,
            j,
        ) == arena_leaves(
            nodes0,
            match q {
                Some(v) => nodes0[curr].spec_update_lazy_value(v),
                None => nodes0[curr],
            },
            i,
            j,
        ),
        lazy_coherent::<T>() ==> arena_log(
            nodes1,
            match q {
                Some(v) => nodes1[curr].spec_update_lazy_value(v),
                None => nodes1[curr],
            },
            i,
            j,
        ) == arena_log(
            nodes0,
            match q {
                Some(v) => nodes0[curr].spec_update_lazy_value(v),
                None => nodes0[curr],
            },
            i,
            j,
        ),
        lazy_coherent::<T>() && arena_inv(
            nodes0,
            match q {
                Some(v) => nodes0[curr].spec_update_lazy_value(v),
                None => nodes0[curr],
            },
            i,
            j,
        ) ==> arena_inv(
            nodes1,
            match q {
                Some(v) => nodes1[curr].spec_update_lazy_value(v),
                None => nodes1[curr],
            },
            i,
            j,
        ),
{
    lemma_push_local(nodes0, nodes1, seg0, seg1, curr, i, j);
    match q {
        None => {},
        Some(v) => {
            crate::internal_utils::persistent_utils::lemma_wrapper_compose_links(nodes0[curr], v);
            crate::internal_utils::persistent_utils::lemma_wrapper_compose_links(nodes1[curr], v);
            lemma_arena_ok_links(
                nodes0,
                seg0,
                nodes0[curr],
                nodes0[curr].spec_update_lazy_value(v),
                i,
                j,
            );
            lemma_arena_ok_links(
                nodes1,
                seg1,
                nodes1[curr],
                nodes1[curr].spec_update_lazy_value(v),
                i,
                j,
            );
            if lazy_coherent::<T>() {
                lemma_arena_compose(nodes0, seg0, nodes0[curr], i, j, v);
                lemma_arena_compose(nodes1, seg1, nodes1[curr], i, j, v);
                lemma_arena_leaves_len(nodes0, nodes0[curr], i, j);
                lemma_arena_leaves_len(nodes1, nodes1[curr], i, j);
                assert(arena_leaves(nodes1, nodes1[curr].spec_update_lazy_value(v), i, j)
                    =~= arena_leaves(nodes0, nodes0[curr].spec_update_lazy_value(v), i, j));
                lemma_push_chain_values(nodes0, nodes1, seg0, seg1, curr, i, j, v);
            }
        },
    }
}

/// The logical summary and the value invariant of the pushed slot also pass
/// through an ancestor's pending value: staging it on the pre-push and the
/// post-push slot adjusts both children to the very same values, so the two
/// composed occurrences agree node for node.
pub(crate) proof fn lemma_push_chain_values<T: LazyNode>(
    nodes0: Seq<PersistentWrapper<T>>,
    nodes1: Seq<PersistentWrapper<T>>,
    seg0: Map<int, (int, int)>,
    seg1: Map<int, (int, int)>,
    curr: int,
    i: int,
    j: int,
    v: <T as Node>::Value,
)
    requires
        i <= j,
        lazy_coherent::<T>(),
        push_rel(nodes0, nodes1, seg0, seg1, curr, i, j),
        arena_ok(nodes0, seg0, nodes0[curr], i, j),
    ensures
        arena_log(nodes1, nodes1[curr].spec_update_lazy_value(v), i, j) == arena_log(
            nodes0,
            nodes0[curr].spec_update_lazy_value(v),
            i,
            j,
        ),
        arena_inv(nodes0, nodes0[curr].spec_update_lazy_value(v), i, j) ==> arena_inv(
            nodes1,
            nodes1[curr].spec_update_lazy_value(v),
            i,
            j,
        ),
{
    crate::internal_utils::persistent_utils::lemma_arena_wrapper_lazy_coherent::<T>();
    lemma_push_local(nodes0, nodes1, seg0, seg1, curr, i, j);
    let x0 = nodes0[curr];
    let x1 = nodes1[curr];
    let y0 = x0.spec_update_lazy_value(v);
    let y1 = x1.spec_update_lazy_value(v);
    crate::internal_utils::persistent_utils::lemma_wrapper_lazy(x0, v, i, j);
    crate::internal_utils::persistent_utils::lemma_wrapper_lazy(x1, v, i, j);
    crate::internal_utils::persistent_utils::lemma_wrapper_lazy(y0, v, i, j);
    crate::internal_utils::persistent_utils::lemma_wrapper_lazy(y1, v, i, j);
    if i >= j {
        // Leaf: absorbing after staging commutes with the push's absorption.
        crate::internal_utils::persistent_utils::lemma_wrapper_lazy(
            x0.spec_lazy_update(i, j),
            v,
            i,
            j,
        );
        assert(x0.spec_inner().spec_update_lazy_value(v).spec_lazy_update(i, j)
            == x0.spec_inner().spec_lazy_update(i, j).spec_update_lazy_value(v).spec_lazy_update(
            i,
            j,
        ));
        assert(x1.spec_inner().spec_update_lazy_value(v).spec_lazy_update(i, j)
            == x1.spec_inner().spec_lazy_update(i, j).spec_update_lazy_value(v).spec_lazy_update(
            i,
            j,
        ));
        assert(x1.spec_inner() == x0.spec_lazy_update(i, j).spec_inner());
        T::lemma_lazy_update_clears(x0.spec_inner(), i, j);
        T::lemma_lazy_update_noop(x0.spec_inner().spec_lazy_update(i, j), i, j);
    } else {
        let mid = (i + j) / 2;
        crate::internal_utils::persistent_utils::lemma_wrapper_compose_links(x0, v);
        crate::internal_utils::persistent_utils::lemma_wrapper_compose_links(x1, v);
        if x0.spec_lazy() is None {
            // No pending: the push was the identity and the two sides agree.
            <PersistentWrapper<T> as LazyNode>::lemma_lazy_update_noop(x0, i, j);
            assert(nodes1 =~= nodes0);
            crate::internal_utils::persistent_utils::lemma_adj_links(y0, nodes0[left_of(x0)]);
            crate::internal_utils::persistent_utils::lemma_adj_links(y1, nodes0[left_of(x0)]);
            lemma_arena_ok_links(nodes0, seg0, x0, y0, i, j);
            assert(arena_log(nodes1, y1, i, j) == arena_log(nodes0, y0, i, j));
        } else {
            // Staging `v` on either side pushes the same adjusted values into
            // the children: on the old side the pending composes with `v`, on
            // the new side the fresh copies already carry the old pending.
            let l0 = left_of(x0);
            let r0 = right_of(x0);
            let a = left_of(x1);
            let b = right_of(x1);
            assert(adj(y0, nodes0[l0]) == adj(x0, nodes0[l0]).spec_update_lazy_value(v));
            assert(adj(y1, nodes1[a]) == adj(x1, nodes1[a]).spec_update_lazy_value(v));
            assert(adj(x1, nodes1[a]) == nodes1[a]);
            assert(adj(x1, nodes1[b]) == nodes1[b]);
            assert(nodes1[a] == adj(x0, nodes0[l0]));
            assert(nodes1[b] == adj(x0, nodes0[r0]));
            let cl = adj(x0, nodes0[l0]).spec_update_lazy_value(v);
            let cr = adj(x0, nodes0[r0]).spec_update_lazy_value(v);
            // The children's subtrees (recorded strictly inside the halves)
            // are untouched by the push.
            crate::internal_utils::persistent_utils::lemma_adj_links(x0, nodes0[l0]);
            crate::internal_utils::persistent_utils::lemma_adj_links(x0, nodes0[r0]);
            crate::internal_utils::persistent_utils::lemma_wrapper_compose_links(
                adj(x0, nodes0[l0]),
                v,
            );
            crate::internal_utils::persistent_utils::lemma_wrapper_compose_links(
                adj(x0, nodes0[r0]),
                v,
            );
            lemma_arena_ok_links(nodes0, seg0, adj(x0, nodes0[l0]), cl, i, mid);
            lemma_arena_ok_links(nodes0, seg0, adj(x0, nodes0[r0]), cr, mid + 1, j);
            assert forall|z: int|
                0 <= z < nodes0.len() && seg0.contains_key(z) && seg_within(
                    #[trigger] seg0[z],
                    i,
                    mid,
                ) && seg0[z].1 - seg0[z].0 < mid - i implies nodes1[z] == nodes0[z] by {
                if z == curr {
                    assert(seg0[curr] == (i, j));
                }
            }
            lemma_arena_frame(nodes0, nodes1, seg0, seg1, cl, i, mid);
            assert forall|z: int|
                0 <= z < nodes0.len() && seg0.contains_key(z) && seg_within(
                    #[trigger] seg0[z],
                    mid + 1,
                    j,
                ) && seg0[z].1 - seg0[z].0 < j - (mid + 1) implies nodes1[z] == nodes0[z] by {
                if z == curr {
                    assert(seg0[curr] == (i, j));
                }
            }
            lemma_arena_frame(nodes0, nodes1, seg0, seg1, cr, mid + 1, j);
            // Root summaries agree: absorbing after staging passes the push.
            assert(y1.spec_inner().spec_lazy_update(i, j) == y0.spec_inner().spec_lazy_update(
                i,
                j,
            )) by {
                assert(x0.spec_inner().spec_update_lazy_value(v).spec_lazy_update(i, j)
                    == x0.spec_inner().spec_lazy_update(i, j).spec_update_lazy_value(
                    v,
                ).spec_lazy_update(i, j));
                assert(x1.spec_inner().spec_update_lazy_value(v).spec_lazy_update(i, j)
                    == x1.spec_inner().spec_lazy_update(i, j).spec_update_lazy_value(
                    v,
                ).spec_lazy_update(i, j));
                assert(x1.spec_inner() == x0.spec_lazy_update(i, j).spec_inner());
                T::lemma_lazy_update_clears(x0.spec_inner(), i, j);
                T::lemma_lazy_update_noop(x0.spec_inner().spec_lazy_update(i, j), i, j);
            }
            assert(arena_log(nodes1, y1, i, j) == arena_log(nodes0, y0, i, j));
            if arena_inv(nodes0, y0, i, j) {
                assert(arena_inv(nodes1, y1, i, j));
            }
        }
    }
}

/// A push at one slot preserves every other occurrence in the arena: slots
/// recorded for other segments are untouched, and where the pushed slot does
/// appear, its whole value (pending included) stands for the same leaves.
pub(crate) proof fn lemma_push_master<T: LazyNode>(
    nodes0: Seq<PersistentWrapper<T>>,
    nodes1: Seq<PersistentWrapper<T>>,
    seg0: Map<int, (int, int)>,
    seg1: Map<int, (int, int)>,
    curr: int,
    pi: int,
    pj: int,
    x: PersistentWrapper<T>,
    i: int,
    j: int,
)
    requires
        pi <= pj,
        push_rel(nodes0, nodes1, seg0, seg1, curr, pi, pj),
        arena_ok(nodes0, seg0, nodes0[curr], pi, pj),
        arena_ok(nodes0, seg0, x, i, j),
    ensures
        arena_ok(nodes1, seg1, x, i, j),
        lazy_coherent::<T>() ==> arena_leaves(nodes1, x, i, j) == arena_leaves(nodes0, x, i, j),
        lazy_coherent::<T>() ==> arena_log(nodes1, x, i, j) == arena_log(nodes0, x, i, j),
        lazy_coherent::<T>() && arena_inv(nodes0, x, i, j) ==> arena_inv(nodes1, x, i, j),
    decreases j - i,
{
    if i < j {
        let mid = (i + j) / 2;
        let li = left_of(x);
        let ri = right_of(x);
        if li == curr {
            assert(seg0[curr] == (i, mid));
            lemma_push_chain(nodes0, nodes1, seg0, seg1, curr, i, mid, x.spec_lazy());
            assert(adj(x, nodes0[li]) == match x.spec_lazy() {
                Some(v) => nodes0[curr].spec_update_lazy_value(v),
                None => nodes0[curr],
            });
            assert(adj(x, nodes1[li]) == match x.spec_lazy() {
                Some(v) => nodes1[curr].spec_update_lazy_value(v),
                None => nodes1[curr],
            });
        } else {
            assert(nodes1[li] == nodes0[li]);
            lemma_push_master(nodes0, nodes1, seg0, seg1, curr, pi, pj, adj(x, nodes0[li]), i, mid);
        }
        if ri == curr {
            assert(seg0[curr] == (mid + 1, j));
            lemma_push_chain(nodes0, nodes1, seg0, seg1, curr, mid + 1, j, x.spec_lazy());
            assert(adj(x, nodes0[ri]) == match x.spec_lazy() {
                Some(v) => nodes0[curr].spec_update_lazy_value(v),
                None => nodes0[curr],
            });
            assert(adj(x, nodes1[ri]) == match x.spec_lazy() {
                Some(v) => nodes1[curr].spec_update_lazy_value(v),
                None => nodes1[curr],
            });
        } else {
            assert(nodes1[ri] == nodes0[ri]);
            lemma_push_master(
                nodes0,
                nodes1,
                seg0,
                seg1,
                curr,
                pi,
                pj,
                adj(x, nodes0[ri]),
                mid + 1,
                j,
            );
        }
    }
}


/// Every recorded segment is ordered.
pub(crate) open spec fn seg_ordered(seg: Map<int, (int, int)>) -> bool {
    forall|k: int| #[trigger] seg.contains_key(k) ==> seg[k].0 <= seg[k].1
}

/// Every key the segment record holds names an existing slot.
pub(crate) open spec fn seg_keys_bounded<T: LazyNode>(
    nodes: Seq<PersistentWrapper<T>>,
    seg: Map<int, (int, int)>,
) -> bool {
    forall|k: int| #[trigger] seg.contains_key(k) ==> 0 <= k < nodes.len()
}

/// Lazy persistent segment tree: range updates and range queries against any
/// recorded version, with copy-on-write path copying. A push never mutates a
/// node that an older version may share observably: it allocates fresh copies
/// of the two children, composes the pending value into the copies, and
/// repoints only the node being pushed, leaving every version's logical
/// leaves exactly as they were. Because of that, even a query may grow the
/// arena — but it never records a new version, and every recorded root keeps
/// answering for the same leaves.
///
/// Its view is the sequence of versions, each the sequence of that version's
/// logical leaves. Old versions are immutable: an update only appends, and the
/// appended version is the source version with the update staged and absorbed
/// over the range ([`ranged_stage`]); under [`lazy_coherent`] that view is
/// exactly what the arena answers for.
pub struct LazyPersistent<T: LazyNode> {
    nodes: Vec<PersistentWrapper<T>>,
    roots: Vec<usize>,
    n: usize,
    version_leaves: Ghost<Seq<Seq<T>>>,
    seg_of: Ghost<Map<int, (int, int)>>,
}

impl<T: LazyNode> View for LazyPersistent<T> {
    type V = Seq<Seq<T>>;

    closed spec fn view(&self) -> Seq<Seq<T>> {
        self.version_leaves@
    }
}

impl<T: LazyNode> LazyPersistent<T> {
    /// Every recorded root heads a well-formed occurrence over the full range.
    pub(crate) closed spec fn roots_ok(&self) -> bool {
        forall|w: int|
            #![trigger self.roots@[w]]
            0 <= w < self.roots@.len() ==> {
                &&& self.roots@[w] < self.nodes@.len()
                &&& self.seg_of@.contains_key(self.roots@[w] as int)
                &&& self.seg_of@[self.roots@[w] as int] == (0int, self.n - 1)
                &&& arena_ok(
                    self.nodes@,
                    self.seg_of@,
                    self.nodes@[self.roots@[w] as int],
                    0,
                    self.n - 1,
                )
                &&& self.version_leaves@[w].len() == self.n
            }
    }

    /// Every recorded root satisfies the value invariant.
    pub(crate) closed spec fn inv_ok(&self) -> bool {
        forall|w: int|
            #![trigger self.roots@[w]]
            0 <= w < self.roots@.len() ==> arena_inv(
                self.nodes@,
                self.nodes@[self.roots@[w] as int],
                0,
                self.n - 1,
            )
    }

    /// The tree's summaries are consistent with its logical leaves: this holds
    /// from the moment a tree is built over pending-free nodes; queries keep
    /// it whenever the node type obeys [`lazy_coherent`], and range updates
    /// whenever it also obeys [`lazy_splittable`]. Query summaries are pinned
    /// down only for consistent trees.
    pub closed spec fn consistent(&self) -> bool {
        self.inv_ok()
    }

    /// Every version's recorded logical leaves are what its root answers for.
    pub(crate) closed spec fn leaves_ok(&self) -> bool {
        forall|w: int|
            #![trigger self.version_leaves@[w]]
            0 <= w < self.roots@.len() ==> arena_leaves(
                self.nodes@,
                self.nodes@[self.roots@[w] as int],
                0,
                self.n - 1,
            ) == self.version_leaves@[w]
    }

    /// The engine's internal invariant: one recorded root per version, a
    /// well-formed occurrence under each, and — whenever the node type obeys
    /// the lazy coherence laws — each version's view is exactly what its root
    /// answers for.
    pub closed spec fn wf(&self) -> bool {
        &&& self.n <= usize::MAX / 2
        &&& self.n == 0 ==> self.roots@.len() == 0
        &&& self.roots@.len() == self.version_leaves@.len()
        &&& links_bounded(self.nodes@)
        &&& seg_keys_bounded(self.nodes@, self.seg_of@)
        &&& seg_ordered(self.seg_of@)
        &&& self.roots_ok()
        &&& lazy_coherent::<T>() ==> self.leaves_ok()
    }

    /// The number of elements each version holds.
    pub closed spec fn spec_n(&self) -> usize {
        self.n
    }

    /// The number of recorded versions: the length of the view.
    pub open spec fn spec_versions(&self) -> int {
        self.view().len() as int
    }

    /// A well-formed tree has one leaf sequence of length `n` per version.
    pub proof fn lemma_view_shape(&self)
        requires
            self.wf(),
        ensures
            self@.len() == self.spec_versions(),
            forall|w: int| 0 <= w < self@.len() ==> (#[trigger] self@[w]).len() == self.spec_n(),
    {
        assert(self@ == self.version_leaves@);
        assert(self.roots@.len() == self.version_leaves@.len());
        assert forall|w: int| 0 <= w < self@.len() implies (#[trigger] self@[w]).len()
            == self.spec_n() by {
            assert(self.roots@[w] < self.nodes@.len());
            assert(self@[w] == self.version_leaves@[w]);
        }
    }

    /// Builds the lazy persistent tree from a slice; the resulting root is
    /// version zero, whose logical leaves are the given nodes with whatever
    /// pending values they already carry absorbed.
    pub fn build(values: &[T]) -> (r: Self)
        requires
            values@.len() <= usize::MAX / 2,
        ensures
            r.wf(),
            r.spec_n() == values@.len(),
            r.spec_versions() == if values@.len() == 0 {
                0int
            } else {
                1int
            },
            values@.len() > 0 ==> r@ == seq![
                Seq::new(values@.len(), |t: int| values@[t].spec_lazy_update(t, t)),
            ],
            (forall|x: int| 0 <= x < values@.len() ==> (#[trigger] values@[x].spec_lazy()) is None)
                ==> r.consistent(),
    {
        let n = values.len();
        let mut tree = LazyPersistent {
            nodes: Vec::new(),
            roots: Vec::new(),
            n,
            version_leaves: Ghost(Seq::empty()),
            seg_of: Ghost(Map::empty()),
        };
        if n == 0 {
            return tree;
        }
        let root = tree.build_helper(values, 0, n - 1);
        tree.roots.push(root);
        proof {
            tree.version_leaves@ = seq![
                Seq::new(values@.len(), |t: int| values@[t].spec_lazy_update(t, t)),
            ];
            assert forall|w: int|
                #![trigger tree.roots@[w]]
                0 <= w < tree.roots@.len() implies {
                &&& tree.roots@[w] < tree.nodes@.len()
                &&& tree.seg_of@.contains_key(tree.roots@[w] as int)
                &&& tree.seg_of@[tree.roots@[w] as int] == (0int, tree.n - 1)
                &&& arena_ok(
                    tree.nodes@,
                    tree.seg_of@,
                    tree.nodes@[tree.roots@[w] as int],
                    0,
                    tree.n - 1,
                )
                &&& tree.version_leaves@[w].len() == tree.n
            } by {
                assert(tree.roots@[w] == root);
            }
            assert forall|w: int|
                #![trigger tree.version_leaves@[w]]
                0 <= w < tree.roots@.len() implies arena_leaves(
                tree.nodes@,
                tree.nodes@[tree.roots@[w] as int],
                0,
                tree.n - 1,
            ) == tree.version_leaves@[w] by {
                assert(tree.roots@[w] == root);
            }
            if forall|x: int| 0 <= x < values@.len() ==> (#[trigger] values@[x].spec_lazy()) is None {
                assert forall|w: int|
                    #![trigger tree.roots@[w]]
                    0 <= w < tree.roots@.len() implies arena_inv(
                    tree.nodes@,
                    tree.nodes@[tree.roots@[w] as int],
                    0,
                    tree.n - 1,
                ) by {
                    assert(tree.roots@[w] == root);
                }
            }
        }
        tree
    }

    #[verifier::rlimit(100)]
    fn build_helper(&mut self, values: &[T], i: usize, j: usize) -> (root: usize)
        requires
            i <= j < values@.len(),
            values@.len() <= usize::MAX / 2,
            links_bounded(old(self).nodes@),
            seg_keys_bounded(old(self).nodes@, old(self).seg_of@),
            seg_ordered(old(self).seg_of@),
        ensures
            final(self).n == old(self).n,
            final(self).roots == old(self).roots,
            final(self).version_leaves == old(self).version_leaves,
            old(self).nodes@.len() < final(self).nodes@.len(),
            forall|z: int|
                0 <= z < old(self).nodes@.len() ==> final(self).nodes@[z] == #[trigger] old(self).nodes@[z],
            forall|k: int|
                #[trigger] old(self).seg_of@.contains_key(k) ==> final(self).seg_of@.contains_key(k) && final(self).seg_of@[k] == old(self).seg_of@[k],
            forall|k: int|
                k < old(self).nodes@.len() && #[trigger] final(self).seg_of@.contains_key(k)
                    ==> old(self).seg_of@.contains_key(k),
            links_bounded(final(self).nodes@),
            seg_keys_bounded(final(self).nodes@, final(self).seg_of@),
            seg_ordered(final(self).seg_of@),
            root < final(self).nodes@.len(),
            final(self).seg_of@.contains_key(root as int) && final(self).seg_of@[root as int] == (
                i as int,
                j as int,
            ),
            arena_ok(
                final(self).nodes@,
                final(self).seg_of@,
                final(self).nodes@[root as int],
                i as int,
                j as int,
            ),
            arena_leaves(final(self).nodes@, final(self).nodes@[root as int], i as int, j as int)
                == Seq::new(
                (j - i + 1) as nat,
                |t: int| values@[i + t].spec_lazy_update(i + t, i + t),
            ),
            (forall|x: int| i <= x <= j ==> (#[trigger] values@[x].spec_lazy()) is None)
                ==> arena_inv(
                final(self).nodes@,
                final(self).nodes@[root as int],
                i as int,
                j as int,
            ) && final(self).nodes@[root as int].spec_lazy() is None,
        decreases j - i,
    {
        if i == j {
            let curr_node = self.nodes.len();
            let w = PersistentWrapper::from_node(*vstd::slice::slice_index_get(values, i));
            self.nodes.push(w);
            proof {
                self.seg_of@ = self.seg_of@.insert(curr_node as int, (i as int, j as int));
                crate::internal_utils::persistent_utils::lemma_wrapper_lazy(
                    w,
                    arbitrary(),
                    i as int,
                    j as int,
                );
                assert(arena_leaves(self.nodes@, self.nodes@[curr_node as int], i as int, j as int)
                    =~= Seq::new(
                    (j - i + 1) as nat,
                    |t: int| values@[i + t].spec_lazy_update(i + t, i + t),
                ));
                assert(w.spec_lazy() == values@[i as int].spec_lazy());
            }
            return curr_node;
        }
        let mid = (i + j) / 2;
        let left_node = self.build_helper(values, i, mid);
        let ghost st1 = *self;
        let right_node = self.build_helper(values, mid + 1, j);
        let ghost st2 = *self;
        let curr_node = self.nodes.len();
        let a = self.nodes[left_node];
        let b = self.nodes[right_node];
        let mut c = <PersistentWrapper<T> as Node>::combine(&a, &b);
        c.set_children(left_node, right_node);
        self.nodes.push(c);
        proof {
            self.seg_of@ = self.seg_of@.insert(curr_node as int, (i as int, j as int));
            crate::internal_utils::persistent_utils::lemma_wrapper_combine(a, b);
            <PersistentWrapper<T> as LazyNode>::lemma_combine_no_lazy(a, b);
            crate::internal_utils::persistent_utils::lemma_wrapper_lazy(
                c,
                arbitrary(),
                i as int,
                j as int,
            );
            crate::internal_utils::persistent_utils::lemma_wrapper_lazy(
                <PersistentWrapper<T> as Node>::spec_combine(a, b),
                arbitrary(),
                i as int,
                j as int,
            );
            lemma_arena_frame(
                st1.nodes@,
                st2.nodes@,
                st1.seg_of@,
                st2.seg_of@,
                st1.nodes@[left_node as int],
                i as int,
                mid as int,
            );
            lemma_arena_frame(
                st2.nodes@,
                self.nodes@,
                st2.seg_of@,
                self.seg_of@,
                st2.nodes@[left_node as int],
                i as int,
                mid as int,
            );
            lemma_arena_frame(
                st2.nodes@,
                self.nodes@,
                st2.seg_of@,
                self.seg_of@,
                st2.nodes@[right_node as int],
                mid + 1,
                j as int,
            );
            assert(adj(self.nodes@[curr_node as int], self.nodes@[left_node as int])
                == self.nodes@[left_node as int]);
            assert(adj(self.nodes@[curr_node as int], self.nodes@[right_node as int])
                == self.nodes@[right_node as int]);
            lemma_arena_leaves_len(
                self.nodes@,
                self.nodes@[left_node as int],
                i as int,
                mid as int,
            );
            lemma_arena_leaves_len(
                self.nodes@,
                self.nodes@[right_node as int],
                mid + 1,
                j as int,
            );
            assert(arena_leaves(self.nodes@, self.nodes@[curr_node as int], i as int, j as int)
                =~= Seq::new(
                (j - i + 1) as nat,
                |t: int| values@[i + t].spec_lazy_update(i + t, i + t),
            ));
            if forall|x: int| i <= x <= j ==> (#[trigger] values@[x].spec_lazy()) is None {
                // Clean inputs build a tree whose summaries already describe
                // their children's logical summaries.
                assert(arena_inv(self.nodes@, self.nodes@[left_node as int], i as int, mid as int));
                assert(arena_inv(self.nodes@, self.nodes@[right_node as int], mid + 1, j as int));
                lemma_arena_inv_absorb_is_log(
                    self.nodes@,
                    self.nodes@[left_node as int],
                    i as int,
                    mid as int,
                );
                lemma_arena_inv_absorb_is_log(
                    self.nodes@,
                    self.nodes@[right_node as int],
                    mid + 1,
                    j as int,
                );
                <PersistentWrapper<T> as LazyNode>::lemma_lazy_update_noop(
                    self.nodes@[left_node as int],
                    i as int,
                    mid as int,
                );
                <PersistentWrapper<T> as LazyNode>::lemma_lazy_update_noop(
                    self.nodes@[right_node as int],
                    mid + 1,
                    j as int,
                );
                <PersistentWrapper<T> as LazyNode>::lemma_lazy_update_noop(
                    self.nodes@[curr_node as int],
                    i as int,
                    j as int,
                );
                crate::internal_utils::persistent_utils::lemma_wrapper_lazy(
                    self.nodes@[left_node as int],
                    arbitrary(),
                    i as int,
                    mid as int,
                );
                crate::internal_utils::persistent_utils::lemma_wrapper_lazy(
                    self.nodes@[right_node as int],
                    arbitrary(),
                    mid + 1,
                    j as int,
                );
                assert(arena_inv(self.nodes@, self.nodes@[curr_node as int], i as int, j as int));
            }
            assert forall|k: int|
                k < old(self).nodes@.len() && #[trigger] self.seg_of@.contains_key(k) implies
                old(self).seg_of@.contains_key(k) by {
                assert(k != curr_node as int);
                assert(k < st2.nodes@.len());
                assert(st2.seg_of@.contains_key(k));
                assert(k < st1.nodes@.len());
                assert(st1.seg_of@.contains_key(k));
            }
        }
        curr_node
    }

    /// Pushes the pending value of slot `curr` (recorded for `[i, j]`) one
    /// level down without mutating any shared child: fresh copies of both
    /// children receive the pending value and the slot is repointed at them
    /// before absorbing its own pending value. The slot's occurrence keeps its
    /// logical leaves exactly, and so does every other occurrence in the arena
    /// (see [`lemma_push_master`]).
    fn push(&mut self, curr: usize, i: usize, j: usize)
        requires
            i <= j,
            j <= usize::MAX / 2,
            curr < old(self).nodes@.len(),
            links_bounded(old(self).nodes@),
            seg_keys_bounded(old(self).nodes@, old(self).seg_of@),
            seg_ordered(old(self).seg_of@),
            old(self).seg_of@.contains_key(curr as int),
            old(self).seg_of@[curr as int] == (i as int, j as int),
            arena_ok(
                old(self).nodes@,
                old(self).seg_of@,
                old(self).nodes@[curr as int],
                i as int,
                j as int,
            ),
        ensures
            final(self).n == old(self).n,
            final(self).roots == old(self).roots,
            final(self).version_leaves == old(self).version_leaves,
            push_rel(
                old(self).nodes@,
                final(self).nodes@,
                old(self).seg_of@,
                final(self).seg_of@,
                curr as int,
                i as int,
                j as int,
            ),
            old(self).nodes@.len() <= final(self).nodes@.len(),
            links_bounded(final(self).nodes@),
            seg_keys_bounded(final(self).nodes@, final(self).seg_of@),
            seg_ordered(final(self).seg_of@),
            forall|k: int|
                k < old(self).nodes@.len() && #[trigger] final(self).seg_of@.contains_key(k)
                    ==> old(self).seg_of@.contains_key(k),
            arena_ok(
                final(self).nodes@,
                final(self).seg_of@,
                final(self).nodes@[curr as int],
                i as int,
                j as int,
            ),
            arena_leaves(final(self).nodes@, final(self).nodes@[curr as int], i as int, j as int)
                == arena_leaves(
                old(self).nodes@,
                old(self).nodes@[curr as int],
                i as int,
                j as int,
            ),
            arena_log(final(self).nodes@, final(self).nodes@[curr as int], i as int, j as int)
                == arena_log(old(self).nodes@, old(self).nodes@[curr as int], i as int, j as int),
            arena_inv(old(self).nodes@, old(self).nodes@[curr as int], i as int, j as int)
                ==> arena_inv(
                final(self).nodes@,
                final(self).nodes@[curr as int],
                i as int,
                j as int,
            ),
            final(self).nodes@[curr as int].spec_lazy() is None,
    {
        let ghost nodes0 = self.nodes@;
        let ghost seg0 = self.seg_of@;
        let w0 = self.nodes[curr];
        let p_opt = match w0.lazy_value() {
            Some(v) => Some(*v),
            None => None,
        };
        if i != j && p_opt.is_some() {
            let p = p_opt.unwrap();
            let mid = (i + j) / 2;
            let lh = w0.left_child();
            let rh = w0.right_child();
            proof {
                assert(lh is Some && rh is Some);
                assert(0 <= left_of(w0) < nodes0.len());
                assert(0 <= right_of(w0) < nodes0.len());
            }
            let old_left = lh.unwrap().get();
            let old_right = rh.unwrap().get();
            let a = self.nodes.len();
            let mut cl = self.nodes[old_left];
            cl.update_lazy_value(&p);
            self.nodes.push(cl);
            let mut cr = self.nodes[old_right];
            cr.update_lazy_value(&p);
            self.nodes.push(cr);
            let top = self.nodes.len();
            proof {
                assert(top == a + 2);
            }
            let b = a + 1;
            let mut cw = self.nodes[curr];
            cw.set_children(a, b);
            let ghost cw_mid = cw;
            cw.lazy_update(i, j);
            self.nodes[curr] = cw;
            proof {
                self.seg_of@ = seg0.insert(a as int, (i as int, mid as int)).insert(
                    b as int,
                    (mid + 1, j as int),
                );
                crate::internal_utils::persistent_utils::lemma_wrapper_compose_links(
                    nodes0[old_left as int],
                    p,
                );
                crate::internal_utils::persistent_utils::lemma_wrapper_compose_links(
                    nodes0[old_right as int],
                    p,
                );
                crate::internal_utils::persistent_utils::lemma_wrapper_absorb_links(
                    cw_mid,
                    i as int,
                    j as int,
                );
                crate::internal_utils::persistent_utils::lemma_wrapper_lazy(
                    cw_mid,
                    p,
                    i as int,
                    j as int,
                );
                crate::internal_utils::persistent_utils::lemma_wrapper_lazy(
                    nodes0[curr as int],
                    p,
                    i as int,
                    j as int,
                );
                <PersistentWrapper<T> as LazyNode>::lemma_lazy_update_clears(
                    cw_mid,
                    i as int,
                    j as int,
                );
                assert(push_rel(
                    nodes0,
                    self.nodes@,
                    seg0,
                    self.seg_of@,
                    curr as int,
                    i as int,
                    j as int,
                ));
            }
        } else {
            let mut cw = self.nodes[curr];
            cw.lazy_update(i, j);
            self.nodes[curr] = cw;
            proof {
                crate::internal_utils::persistent_utils::lemma_wrapper_absorb_links(
                    nodes0[curr as int],
                    i as int,
                    j as int,
                );
                assert(self.nodes@ =~= nodes0.update(
                    curr as int,
                    nodes0[curr as int].spec_lazy_update(i as int, j as int),
                ));
                assert(push_rel(
                    nodes0,
                    self.nodes@,
                    seg0,
                    self.seg_of@,
                    curr as int,
                    i as int,
                    j as int,
                ));
            }
        }
        proof {
            <PersistentWrapper<T> as LazyNode>::lemma_lazy_update_clears(
                nodes0[curr as int],
                i as int,
                j as int,
            );
            if nodes0[curr as int].spec_lazy() is None {
                <PersistentWrapper<T> as LazyNode>::lemma_lazy_update_noop(
                    nodes0[curr as int],
                    i as int,
                    j as int,
                );
            }
            lemma_push_local(
                nodes0,
                self.nodes@,
                seg0,
                self.seg_of@,
                curr as int,
                i as int,
                j as int,
            );
        }
    }

    /// After a push, every recorded root still heads a well-formed occurrence,
    /// and under the coherence laws it answers for the same logical leaves.
    proof fn lemma_push_keeps_roots(pre: Self, post: Self, curr: int, i: int, j: int)
        requires
            i <= j,
            push_rel(pre.nodes@, post.nodes@, pre.seg_of@, post.seg_of@, curr, i, j),
            arena_ok(pre.nodes@, pre.seg_of@, pre.nodes@[curr], i, j),
            post.roots == pre.roots,
            post.version_leaves == pre.version_leaves,
            post.n == pre.n,
            pre.roots_ok(),
        ensures
            post.roots_ok(),
            lazy_coherent::<T>() && pre.leaves_ok() ==> post.leaves_ok(),
            lazy_coherent::<T>() && pre.inv_ok() ==> post.inv_ok(),
    {
        assert forall|w: int|
            #![trigger post.roots@[w]]
            0 <= w < post.roots@.len() implies {
            &&& post.roots@[w] < post.nodes@.len()
            &&& post.seg_of@.contains_key(post.roots@[w] as int)
            &&& post.seg_of@[post.roots@[w] as int] == (0int, post.n - 1)
            &&& arena_ok(
                post.nodes@,
                post.seg_of@,
                post.nodes@[post.roots@[w] as int],
                0,
                post.n - 1,
            )
            &&& post.version_leaves@[w].len() == post.n
        } by {
            assert(pre.roots@[w] == post.roots@[w]);
            let rt = pre.roots@[w] as int;
            if rt == curr {
                lemma_push_chain(
                    pre.nodes@,
                    post.nodes@,
                    pre.seg_of@,
                    post.seg_of@,
                    curr,
                    i,
                    j,
                    None,
                );
            } else {
                lemma_push_master(
                    pre.nodes@,
                    post.nodes@,
                    pre.seg_of@,
                    post.seg_of@,
                    curr,
                    i,
                    j,
                    pre.nodes@[rt],
                    0,
                    pre.n - 1,
                );
            }
        }
        if lazy_coherent::<T>() && pre.leaves_ok() {
            assert forall|w: int|
                #![trigger post.version_leaves@[w]]
                0 <= w < post.roots@.len() implies arena_leaves(
                post.nodes@,
                post.nodes@[post.roots@[w] as int],
                0,
                post.n - 1,
            ) == post.version_leaves@[w] by {
                assert(pre.roots@[w] == post.roots@[w]);
                let rt = pre.roots@[w] as int;
                assert(arena_ok(pre.nodes@, pre.seg_of@, pre.nodes@[rt], 0, pre.n - 1));
                if rt == curr {
                    lemma_push_chain(
                        pre.nodes@,
                        post.nodes@,
                        pre.seg_of@,
                        post.seg_of@,
                        curr,
                        i,
                        j,
                        None,
                    );
                } else {
                    lemma_push_master(
                        pre.nodes@,
                        post.nodes@,
                        pre.seg_of@,
                        post.seg_of@,
                        curr,
                        i,
                        j,
                        pre.nodes@[rt],
                        0,
                        pre.n - 1,
                    );
                }
                assert(pre.version_leaves@[w] == arena_leaves(
                    pre.nodes@,
                    pre.nodes@[rt],
                    0,
                    pre.n - 1,
                ));
            }
        }
        if lazy_coherent::<T>() && pre.inv_ok() {
            assert forall|w: int|
                #![trigger post.roots@[w]]
                0 <= w < post.roots@.len() implies arena_inv(
                post.nodes@,
                post.nodes@[post.roots@[w] as int],
                0,
                post.n - 1,
            ) by {
                assert(pre.roots@[w] == post.roots@[w]);
                let rt = pre.roots@[w] as int;
                assert(arena_ok(pre.nodes@, pre.seg_of@, pre.nodes@[rt], 0, pre.n - 1));
                assert(arena_inv(pre.nodes@, pre.nodes@[rt], 0, pre.n - 1));
                if rt == curr {
                    lemma_push_chain(
                        pre.nodes@,
                        post.nodes@,
                        pre.seg_of@,
                        post.seg_of@,
                        curr,
                        i,
                        j,
                        None,
                    );
                } else {
                    lemma_push_master(
                        pre.nodes@,
                        post.nodes@,
                        pre.seg_of@,
                        post.seg_of@,
                        curr,
                        i,
                        j,
                        pre.nodes@[rt],
                        0,
                        pre.n - 1,
                    );
                }
            }
        }
    }

    /// Returns the summary of `[left, right]` in the given version, or `None`
    /// if and only if the range is empty (`left > right`). Traversal may push
    /// pending values down — allocating inside the arena — but it records no
    /// new version and leaves every version's view exactly as it was. For a
    /// consistent tree over an associative, coherent node type the summary is
    /// exactly the fold of that version's logical leaves over the range.
    pub fn query(&mut self, version: usize, left: usize, right: usize) -> (r: Option<T>)
        requires
            old(self).wf(),
            version < old(self).spec_versions(),
            left < old(self).spec_n(),
            right < old(self).spec_n(),
        ensures
            final(self).wf(),
            final(self).spec_n() == old(self).spec_n(),
            final(self)@ == old(self)@,
            r is Some <==> left <= right,
            lazy_coherent::<T>() && old(self).consistent() ==> final(self).consistent(),
            combine_associative::<T>() && lazy_coherent::<T>() && old(self).consistent() && left
                <= right ==> r == Some(
                seg_fold(old(self)@[version as int].subrange(left as int, right + 1)),
            ),
    {
        let root = self.roots[version];
        let r = self.query_helper(root, left, right, 0, self.n - 1);
        proof {
            if combine_associative::<T>() && lazy_coherent::<T>() && old(self).consistent() && left
                <= right {
                assert(arena_inv(old(self).nodes@, old(self).nodes@[root as int], 0, old(self).n - 1));
                assert(arena_leaves(old(self).nodes@, old(self).nodes@[root as int], 0, old(self).n - 1)
                    == old(self).version_leaves@[version as int]);
                assert(old(self)@[version as int].subrange(
                    int_max(left as int, 0),
                    int_min(right as int, old(self).n - 1) + 1,
                ) =~= old(self)@[version as int].subrange(left as int, right + 1));
            }
        }
        match r {
            Some(w) => Some(w.into_inner()),
            None => None,
        }
    }

    #[verifier::rlimit(100)]
    fn query_helper(
        &mut self,
        curr: usize,
        left: usize,
        right: usize,
        i: usize,
        j: usize,
    ) -> (r: Option<PersistentWrapper<T>>)
        requires
            i <= j,
            j <= usize::MAX / 2,
            curr < old(self).nodes@.len(),
            links_bounded(old(self).nodes@),
            seg_keys_bounded(old(self).nodes@, old(self).seg_of@),
            seg_ordered(old(self).seg_of@),
            old(self).seg_of@.contains_key(curr as int),
            old(self).seg_of@[curr as int] == (i as int, j as int),
            arena_ok(
                old(self).nodes@,
                old(self).seg_of@,
                old(self).nodes@[curr as int],
                i as int,
                j as int,
            ),
            old(self).roots_ok(),
        ensures
            final(self).n == old(self).n,
            final(self).roots == old(self).roots,
            final(self).version_leaves == old(self).version_leaves,
            old(self).nodes@.len() <= final(self).nodes@.len(),
            forall|k: int|
                #[trigger] old(self).seg_of@.contains_key(k) ==> final(self).seg_of@.contains_key(k) && final(self).seg_of@[k] == old(self).seg_of@[k],
            forall|k: int|
                k < old(self).nodes@.len() && #[trigger] final(self).seg_of@.contains_key(k)
                    ==> old(self).seg_of@.contains_key(k),
            forall|z: int|
                #![trigger old(self).nodes@[z]]
                0 <= z < old(self).nodes@.len() && !(old(self).seg_of@.contains_key(z)
                    && seg_within(old(self).seg_of@[z], i as int, j as int)) ==> final(self).nodes@[z]
                    == old(self).nodes@[z],
            links_bounded(final(self).nodes@),
            seg_keys_bounded(final(self).nodes@, final(self).seg_of@),
            seg_ordered(final(self).seg_of@),
            final(self).roots_ok(),
            lazy_coherent::<T>() && old(self).leaves_ok() ==> final(self).leaves_ok(),
            lazy_coherent::<T>() && old(self).inv_ok() ==> final(self).inv_ok(),
            r is Some <==> int_max(left as int, i as int) <= int_min(right as int, j as int),
            combine_associative::<T>() && arena_inv(
                old(self).nodes@,
                old(self).nodes@[curr as int],
                i as int,
                j as int,
            ) && int_max(left as int, i as int) <= int_min(right as int, j as int) ==> r is Some
                && r->0.spec_inner() == seg_fold(
                arena_leaves(
                    old(self).nodes@,
                    old(self).nodes@[curr as int],
                    i as int,
                    j as int,
                ).subrange(
                    int_max(left as int, i as int) - i,
                    int_min(right as int, j as int) + 1 - i,
                ),
            ),
        decreases j - i,
    {
        proof {
            lemma_arena_leaves_len(
                old(self).nodes@,
                old(self).nodes@[curr as int],
                i as int,
                j as int,
            );
        }
        if j < left || right < i {
            return None;
        }
        let ghost pre = *self;
        let probe = self.nodes[curr];
        let has_lazy = match probe.lazy_value() {
            Some(_) => true,
            None => false,
        };
        if has_lazy {
            self.push(curr, i, j);
            proof {
                Self::lemma_push_keeps_roots(pre, *self, curr as int, i as int, j as int);
            }
        }
        let ghost st1 = *self;
        if left <= i && j <= right {
            proof {
                if combine_associative::<T>() && arena_inv(
                    pre.nodes@,
                    pre.nodes@[curr as int],
                    i as int,
                    j as int,
                ) {
                    lemma_arena_inv_absorb_is_log(
                        pre.nodes@,
                        pre.nodes@[curr as int],
                        i as int,
                        j as int,
                    );
                    lemma_arena_log_is_fold(pre.nodes@, pre.nodes@[curr as int], i as int, j as int);
                    if !has_lazy {
                        <PersistentWrapper<T> as LazyNode>::lemma_lazy_update_noop(
                            pre.nodes@[curr as int],
                            i as int,
                            j as int,
                        );
                    }
                    assert(self.nodes@[curr as int].spec_inner() == pre.nodes@[
                        curr as int
                    ].spec_lazy_update(i as int, j as int).spec_inner());
                    assert(arena_leaves(pre.nodes@, pre.nodes@[curr as int], i as int, j as int).subrange(
                        0,
                        j + 1 - i,
                    ) =~= arena_leaves(pre.nodes@, pre.nodes@[curr as int], i as int, j as int));
                }
                assert forall|k: int|
                    k < old(self).nodes@.len() && #[trigger] self.seg_of@.contains_key(k) implies
                    old(self).seg_of@.contains_key(k) by {
                }
                assert forall|z: int|
                    #![trigger old(self).nodes@[z]]
                    0 <= z < old(self).nodes@.len() && !(old(self).seg_of@.contains_key(z)
                        && seg_within(
                        old(self).seg_of@[z],
                        i as int,
                        j as int,
                    )) implies self.nodes@[z] == old(self).nodes@[z] by {
                    assert(z != curr as int);
                }
            }
            return Some(self.nodes[curr]);
        }
        let mid = (i + j) / 2;
        let w = self.nodes[curr];
        proof {
            assert(w.spec_lazy() is None);
            assert(adj(w, st1.nodes@[left_of(w)]) == st1.nodes@[left_of(w)]);
            assert(adj(w, st1.nodes@[right_of(w)]) == st1.nodes@[right_of(w)]);
        }
        let left_node = w.left_child().unwrap().get();
        let right_node = w.right_child().unwrap().get();
        let rl = self.query_helper(left_node, left, right, i, mid);
        let ghost st2 = *self;
        proof {
            assert forall|z: int|
                0 <= z < st1.nodes@.len() && st1.seg_of@.contains_key(z) && seg_within(
                    #[trigger] st1.seg_of@[z],
                    mid + 1,
                    j as int,
                ) && st1.seg_of@[z].1 - st1.seg_of@[z].0 < j - (mid + 1) implies st2.nodes@[z]
                == st1.nodes@[z] by {
                assert(st1.seg_of@[z].0 <= st1.seg_of@[z].1);
                assert(!seg_within(st1.seg_of@[z], i as int, mid as int));
            }
            lemma_arena_frame(
                st1.nodes@,
                st2.nodes@,
                st1.seg_of@,
                st2.seg_of@,
                st1.nodes@[right_node as int],
                mid + 1,
                j as int,
            );
        }
        let rr = self.query_helper(right_node, left, right, mid + 1, j);
        let ghost st3 = *self;
        proof {
            let pre0 = old(self);
            if combine_associative::<T>() && arena_inv(
                pre0.nodes@,
                pre0.nodes@[curr as int],
                i as int,
                j as int,
            ) {
                let lo = int_max(left as int, i as int);
                let hi = int_min(right as int, j as int);
                if lo <= hi {
                    if !has_lazy {
                        <PersistentWrapper<T> as LazyNode>::lemma_lazy_update_noop(
                            pre0.nodes@[curr as int],
                            i as int,
                            j as int,
                        );
                    }
                    assert(arena_inv(st1.nodes@, st1.nodes@[curr as int], i as int, j as int));
                    assert(arena_inv(st1.nodes@, st1.nodes@[left_node as int], i as int, mid as int));
                    assert(arena_inv(st1.nodes@, st1.nodes@[right_node as int], mid + 1, j as int));
                    let leaves_l = arena_leaves(
                        st1.nodes@,
                        st1.nodes@[left_node as int],
                        i as int,
                        mid as int,
                    );
                    let leaves_r = arena_leaves(
                        st1.nodes@,
                        st1.nodes@[right_node as int],
                        mid + 1,
                        j as int,
                    );
                    lemma_arena_leaves_len(
                        st1.nodes@,
                        st1.nodes@[left_node as int],
                        i as int,
                        mid as int,
                    );
                    lemma_arena_leaves_len(
                        st1.nodes@,
                        st1.nodes@[right_node as int],
                        mid + 1,
                        j as int,
                    );
                    assert(arena_leaves(pre0.nodes@, pre0.nodes@[curr as int], i as int, j as int)
                        == leaves_l + leaves_r);
                    let lol = int_max(left as int, i as int);
                    let hil = int_min(right as int, mid as int);
                    let lor = int_max(left as int, mid + 1);
                    let hir = int_min(right as int, j as int);
                    if rl is Some && rr is Some {
                        let fa = leaves_l.subrange(lol - i, hil + 1 - i);
                        let fb = leaves_r.subrange(lor - (mid + 1), hir - (mid + 1) + 1);
                        assert(hil == mid && lor == mid + 1);
                        crate::internal_utils::persistent_utils::lemma_wrapper_combine(
                            rl->0,
                            rr->0,
                        );
                        lemma_seg_fold_concat::<T>(fa, fb);
                        assert(fa + fb =~= (leaves_l + leaves_r).subrange(lo - i, hi + 1 - i));
                    } else if rl is Some {
                        assert(leaves_l.subrange(lol - i, hil + 1 - i) =~= (leaves_l
                            + leaves_r).subrange(lo - i, hi + 1 - i));
                    } else {
                        assert(leaves_r.subrange(lor - (mid + 1), hir - (mid + 1) + 1) =~= (
                        leaves_l + leaves_r).subrange(lo - i, hi + 1 - i));
                    }
                }
            }
            assert forall|k: int|
                k < pre0.nodes@.len() && #[trigger] self.seg_of@.contains_key(k) implies
                pre0.seg_of@.contains_key(k) by {
                assert(k < st2.nodes@.len());
                assert(st2.seg_of@.contains_key(k));
                assert(k < st1.nodes@.len());
                assert(st1.seg_of@.contains_key(k));
            }
            assert forall|z: int|
                #![trigger pre0.nodes@[z]]
                0 <= z < pre0.nodes@.len() && !(pre0.seg_of@.contains_key(z) && seg_within(
                    pre0.seg_of@[z],
                    i as int,
                    j as int,
                )) implies self.nodes@[z] == pre0.nodes@[z] by {
                assert(z != curr as int);
                assert(st1.nodes@[z] == pre0.nodes@[z]);
                if st1.seg_of@.contains_key(z) {
                    assert(pre0.seg_of@.contains_key(z));
                    assert(st1.seg_of@[z] == pre0.seg_of@[z]);
                    assert(!seg_within(st1.seg_of@[z], i as int, mid as int));
                } else {
                    assert(!(st1.seg_of@.contains_key(z) && seg_within(
                        st1.seg_of@[z],
                        i as int,
                        mid as int,
                    )));
                }
                assert(pre0.nodes@.len() <= st1.nodes@.len());
                assert(st2.nodes@[z] == st1.nodes@[z]);
                if st2.seg_of@.contains_key(z) {
                    assert(z < st1.nodes@.len());
                    assert(st1.seg_of@.contains_key(z));
                    assert(st2.seg_of@[z] == st1.seg_of@[z]);
                    assert(!seg_within(st2.seg_of@[z], mid + 1, j as int));
                } else {
                    assert(!(st2.seg_of@.contains_key(z) && seg_within(
                        st2.seg_of@[z],
                        mid + 1,
                        j as int,
                    )));
                }
                assert(self.nodes@[z] == st2.nodes@[z]);
            }
        }
        match (rl, rr) {
            (Some(ans_left), Some(ans_right)) => Some(
                <PersistentWrapper<T> as Node>::combine(&ans_left, &ans_right),
            ),
            (Some(ans_left), None) => Some(ans_left),
            (None, Some(ans_right)) => Some(ans_right),
            (None, None) => None,
        }
    }

    /// Creates a new version from `version` with `value` composed into every
    /// element of `[left, right]`: exactly one new version is appended, whose
    /// logical leaves are the source version's with the update staged and
    /// absorbed over the range, and every existing version's view is left
    /// untouched.
    pub fn update(
        &mut self,
        version: usize,
        left: usize,
        right: usize,
        value: &<T as Node>::Value,
    )
        requires
            old(self).wf(),
            version < old(self).spec_versions(),
            left < old(self).spec_n(),
            right < old(self).spec_n(),
        ensures
            final(self).wf(),
            final(self).spec_n() == old(self).spec_n(),
            final(self)@ == old(self)@.push(
                ranged_stage(old(self)@[version as int], 0, left as int, right as int, *value),
            ),
            lazy_coherent::<T>() && lazy_splittable::<T>() && old(self).consistent() ==> final(self).consistent(),
    {
        let ghost pre = *self;
        let root = self.roots[version];
        let new_root = self.update_helper(root, left, right, value, 0, self.n - 1);
        self.roots.push(new_root);
        proof {
            self.version_leaves@ = self.version_leaves@.push(
                ranged_stage(
                    pre.version_leaves@[version as int],
                    0,
                    left as int,
                    right as int,
                    *value,
                ),
            );
            lemma_arena_leaves_len(pre.nodes@, pre.nodes@[root as int], 0, pre.n - 1);
            assert forall|w: int|
                #![trigger self.roots@[w]]
                0 <= w < self.roots@.len() implies {
                &&& self.roots@[w] < self.nodes@.len()
                &&& self.seg_of@.contains_key(self.roots@[w] as int)
                &&& self.seg_of@[self.roots@[w] as int] == (0int, self.n - 1)
                &&& arena_ok(
                    self.nodes@,
                    self.seg_of@,
                    self.nodes@[self.roots@[w] as int],
                    0,
                    self.n - 1,
                )
                &&& self.version_leaves@[w].len() == self.n
            } by {
                if w < self.roots@.len() - 1 {
                    assert(self.roots@[w] == pre.roots@[w]);
                    let rt = pre.roots@[w] as int;
                    lemma_arena_frame(
                        pre.nodes@,
                        self.nodes@,
                        pre.seg_of@,
                        self.seg_of@,
                        pre.nodes@[rt],
                        0,
                        pre.n - 1,
                    );
                }
            }
            if lazy_coherent::<T>() {
                assert forall|w: int|
                    #![trigger self.version_leaves@[w]]
                    0 <= w < self.roots@.len() implies arena_leaves(
                    self.nodes@,
                    self.nodes@[self.roots@[w] as int],
                    0,
                    self.n - 1,
                ) == self.version_leaves@[w] by {
                    if w < self.roots@.len() - 1 {
                        assert(self.roots@[w] == pre.roots@[w]);
                        let rt = pre.roots@[w] as int;
                        assert(arena_leaves(pre.nodes@, pre.nodes@[rt], 0, pre.n - 1)
                            == pre.version_leaves@[w]);
                        lemma_arena_frame(
                            pre.nodes@,
                            self.nodes@,
                            pre.seg_of@,
                            self.seg_of@,
                            pre.nodes@[rt],
                            0,
                            pre.n - 1,
                        );
                    } else {
                        assert(arena_leaves(pre.nodes@, pre.nodes@[root as int], 0, pre.n - 1)
                            == pre.version_leaves@[version as int]);
                    }
                }
            }
            if lazy_coherent::<T>() && lazy_splittable::<T>() && pre.consistent() {
                assert forall|w: int|
                    #![trigger self.roots@[w]]
                    0 <= w < self.roots@.len() implies arena_inv(
                    self.nodes@,
                    self.nodes@[self.roots@[w] as int],
                    0,
                    self.n - 1,
                ) by {
                    if w < self.roots@.len() - 1 {
                        assert(self.roots@[w] == pre.roots@[w]);
                        let rt = pre.roots@[w] as int;
                        assert(arena_inv(pre.nodes@, pre.nodes@[rt], 0, pre.n - 1));
                        lemma_arena_frame(
                            pre.nodes@,
                            self.nodes@,
                            pre.seg_of@,
                            self.seg_of@,
                            pre.nodes@[rt],
                            0,
                            pre.n - 1,
                        );
                    } else {
                        assert(arena_inv(pre.nodes@, pre.nodes@[root as int], 0, pre.n - 1));
                    }
                }
            }
        }
    }

    #[verifier::rlimit(100)]
    fn update_helper(
        &mut self,
        curr: usize,
        left: usize,
        right: usize,
        value: &<T as Node>::Value,
        i: usize,
        j: usize,
    ) -> (root: usize)
        requires
            i <= j,
            j <= usize::MAX / 2,
            curr < old(self).nodes@.len(),
            links_bounded(old(self).nodes@),
            seg_keys_bounded(old(self).nodes@, old(self).seg_of@),
            seg_ordered(old(self).seg_of@),
            old(self).seg_of@.contains_key(curr as int),
            old(self).seg_of@[curr as int] == (i as int, j as int),
            arena_ok(
                old(self).nodes@,
                old(self).seg_of@,
                old(self).nodes@[curr as int],
                i as int,
                j as int,
            ),
        ensures
            final(self).n == old(self).n,
            final(self).roots == old(self).roots,
            final(self).version_leaves == old(self).version_leaves,
            old(self).nodes@.len() <= final(self).nodes@.len(),
            forall|z: int|
                0 <= z < old(self).nodes@.len() ==> final(self).nodes@[z] == #[trigger] old(self).nodes@[z],
            forall|k: int|
                #[trigger] old(self).seg_of@.contains_key(k) ==> final(self).seg_of@.contains_key(k) && final(self).seg_of@[k] == old(self).seg_of@[k],
            forall|k: int|
                k < old(self).nodes@.len() && #[trigger] final(self).seg_of@.contains_key(k)
                    ==> old(self).seg_of@.contains_key(k),
            links_bounded(final(self).nodes@),
            seg_keys_bounded(final(self).nodes@, final(self).seg_of@),
            seg_ordered(final(self).seg_of@),
            root < final(self).nodes@.len(),
            final(self).seg_of@.contains_key(root as int) && final(self).seg_of@[root as int] == (
                i as int,
                j as int,
            ),
            arena_ok(
                final(self).nodes@,
                final(self).seg_of@,
                final(self).nodes@[root as int],
                i as int,
                j as int,
            ),
            lazy_coherent::<T>() ==> arena_leaves(
                final(self).nodes@,
                final(self).nodes@[root as int],
                i as int,
                j as int,
            ) == ranged_stage(
                arena_leaves(old(self).nodes@, old(self).nodes@[curr as int], i as int, j as int),
                i as int,
                left as int,
                right as int,
                *value,
            ),
            final(self).nodes@[root as int].spec_lazy() is None,
            lazy_coherent::<T>() && lazy_splittable::<T>() && arena_inv(
                old(self).nodes@,
                old(self).nodes@[curr as int],
                i as int,
                j as int,
            ) ==> arena_inv(
                final(self).nodes@,
                final(self).nodes@[root as int],
                i as int,
                j as int,
            ),
        decreases j - i,
    {
        let ghost pre = *self;
        proof {
            lemma_arena_leaves_len(pre.nodes@, pre.nodes@[curr as int], i as int, j as int);
        }
        // Copy the visited slot, then push the copy before deciding coverage
        // (even a disjoint slot is pushed): the copy is fresh, so the push
        // cannot disturb any shared slot, and the recombination below always
        // reads children whose summaries are fully materialized.
        let x = self.nodes.len();
        let cw0 = self.nodes[curr];
        self.nodes.push(cw0);
        proof {
            self.seg_of@ = self.seg_of@.insert(x as int, (i as int, j as int));
            lemma_arena_frame(
                pre.nodes@,
                self.nodes@,
                pre.seg_of@,
                self.seg_of@,
                pre.nodes@[curr as int],
                i as int,
                j as int,
            );
        }
        let ghost st1 = *self;
        self.push(x, i, j);
        let ghost st2 = *self;
        proof {
            assert forall|z: int|
                0 <= z < pre.nodes@.len() implies st2.nodes@[z] == #[trigger] pre.nodes@[z] by {
                assert(z != x as int);
                assert(st1.nodes@[z] == pre.nodes@[z]);
                assert(st2.nodes@[z] == st1.nodes@[z]);
            }
            assert forall|k: int| #[trigger] pre.seg_of@.contains_key(k) implies
                self.seg_of@.contains_key(k) && self.seg_of@[k] == pre.seg_of@[k] by {
                assert(k != x as int);
                assert(st1.seg_of@.contains_key(k) && st1.seg_of@[k] == pre.seg_of@[k]);
            }
            assert forall|k: int|
                k < pre.nodes@.len() && #[trigger] self.seg_of@.contains_key(k) implies
                pre.seg_of@.contains_key(k) by {
                assert(k < st1.nodes@.len());
                assert(st1.seg_of@.contains_key(k));
                assert(k != x as int);
            }
        }
        if j < left || right < i {
            proof {
                if lazy_coherent::<T>() {
                    lemma_arena_leaves_len(st2.nodes@, st2.nodes@[x as int], i as int, j as int);
                    assert(arena_leaves(self.nodes@, self.nodes@[x as int], i as int, j as int)
                        =~= ranged_stage(
                        arena_leaves(pre.nodes@, pre.nodes@[curr as int], i as int, j as int),
                        i as int,
                        left as int,
                        right as int,
                        *value,
                    ));
                }
                if arena_inv(pre.nodes@, pre.nodes@[curr as int], i as int, j as int) {
                    assert(arena_inv(st1.nodes@, st1.nodes@[x as int], i as int, j as int));
                }
            }
            return x;
        }
        if left <= i && j <= right {
            let mut xw = self.nodes[x];
            xw.update_lazy_value(value);
            self.nodes[x] = xw;
            let ghost st3 = *self;
            proof {
                crate::internal_utils::persistent_utils::lemma_wrapper_compose_links(
                    st2.nodes@[x as int],
                    *value,
                );
                lemma_arena_frame(
                    st2.nodes@,
                    st3.nodes@,
                    st2.seg_of@,
                    st3.seg_of@,
                    st2.nodes@[x as int],
                    i as int,
                    j as int,
                );
                lemma_arena_ok_links(
                    st3.nodes@,
                    st3.seg_of@,
                    st2.nodes@[x as int],
                    st3.nodes@[x as int],
                    i as int,
                    j as int,
                );
                if lazy_coherent::<T>() {
                    lemma_arena_compose(
                        st3.nodes@,
                        st3.seg_of@,
                        st2.nodes@[x as int],
                        i as int,
                        j as int,
                        *value,
                    );
                }
            }
            self.push(x, i, j);
            proof {
                if lazy_coherent::<T>() && lazy_splittable::<T>() && arena_inv(
                    pre.nodes@,
                    pre.nodes@[curr as int],
                    i as int,
                    j as int,
                ) {
                    assert(arena_inv(st1.nodes@, st1.nodes@[x as int], i as int, j as int));
                    assert(arena_inv(st2.nodes@, st2.nodes@[x as int], i as int, j as int));
                    assert(arena_inv(st3.nodes@, st2.nodes@[x as int], i as int, j as int));
                    lemma_arena_compose_log(
                        st3.nodes@,
                        st3.seg_of@,
                        st2.nodes@[x as int],
                        i as int,
                        j as int,
                        *value,
                    );
                    assert(arena_inv(st3.nodes@, st3.nodes@[x as int], i as int, j as int));
                }
                assert forall|z: int|
                    0 <= z < pre.nodes@.len() implies self.nodes@[z] == #[trigger] pre.nodes@[z] by {
                    assert(z != x as int);
                    assert(st3.nodes@[z] == st2.nodes@[z]);
                    assert(self.nodes@[z] == st3.nodes@[z]);
                }
                assert forall|k: int| #[trigger] pre.seg_of@.contains_key(k) implies
                    self.seg_of@.contains_key(k) && self.seg_of@[k] == pre.seg_of@[k] by {
                    assert(k != x as int);
                    assert(st1.seg_of@.contains_key(k) && st1.seg_of@[k] == pre.seg_of@[k]);
                    assert(st2.seg_of@.contains_key(k) && st2.seg_of@[k] == st1.seg_of@[k]);
                    assert(st3.seg_of@.contains_key(k) && st3.seg_of@[k] == st2.seg_of@[k]);
                }
                assert forall|k: int|
                    k < pre.nodes@.len() && #[trigger] self.seg_of@.contains_key(k) implies
                    pre.seg_of@.contains_key(k) by {
                    assert(st3.seg_of@ == st2.seg_of@);
                    assert(k < st3.nodes@.len());
                    assert(st3.seg_of@.contains_key(k));
                    assert(k < st1.nodes@.len());
                    assert(st1.seg_of@.contains_key(k));
                    assert(k != x as int);
                }
                assert(self.roots == pre.roots);
                if lazy_coherent::<T>() {
                    lemma_arena_leaves_len(st2.nodes@, st2.nodes@[x as int], i as int, j as int);
                    assert(arena_leaves(self.nodes@, self.nodes@[x as int], i as int, j as int)
                        =~= ranged_stage(
                        arena_leaves(pre.nodes@, pre.nodes@[curr as int], i as int, j as int),
                        i as int,
                        left as int,
                        right as int,
                        *value,
                    ));
                }
            }
            return x;
        }
        let mid = (i + j) / 2;
        let w = self.nodes[x];
        proof {
            assert(w.spec_lazy() is None);
            assert(adj(w, st2.nodes@[left_of(w)]) == st2.nodes@[left_of(w)]);
            assert(adj(w, st2.nodes@[right_of(w)]) == st2.nodes@[right_of(w)]);
        }
        let left_node = w.left_child().unwrap().get();
        let right_node = w.right_child().unwrap().get();
        let new_left = self.update_helper(left_node, left, right, value, i, mid);
        let ghost st3 = *self;
        proof {
            lemma_arena_frame(
                st2.nodes@,
                st3.nodes@,
                st2.seg_of@,
                st3.seg_of@,
                st2.nodes@[right_node as int],
                mid + 1,
                j as int,
            );
        }
        let new_right = self.update_helper(right_node, left, right, value, mid + 1, j);
        let ghost st4 = *self;
        proof {
            lemma_arena_frame(
                st3.nodes@,
                st4.nodes@,
                st3.seg_of@,
                st4.seg_of@,
                st3.nodes@[new_left as int],
                i as int,
                mid as int,
            );
        }
        let nlen = self.nodes.len();
        proof {
            assert(new_left < nlen && new_right < nlen);
        }
        let a = self.nodes[new_left];
        let b = self.nodes[new_right];
        let mut c = <PersistentWrapper<T> as Node>::combine(&a, &b);
        c.set_children(new_left, new_right);
        self.nodes[x] = c;
        proof {
            crate::internal_utils::persistent_utils::lemma_wrapper_combine(a, b);
            <PersistentWrapper<T> as LazyNode>::lemma_combine_no_lazy(a, b);
            crate::internal_utils::persistent_utils::lemma_wrapper_lazy(
                c,
                arbitrary(),
                i as int,
                j as int,
            );
            crate::internal_utils::persistent_utils::lemma_wrapper_lazy(
                <PersistentWrapper<T> as Node>::spec_combine(a, b),
                arbitrary(),
                i as int,
                j as int,
            );
            assert forall|z: int|
                0 <= z < pre.nodes@.len() implies self.nodes@[z] == #[trigger] pre.nodes@[z] by {
                assert(z != x as int);
                assert(st3.nodes@[z] == st2.nodes@[z]);
                assert(st4.nodes@[z] == st3.nodes@[z]);
                assert(self.nodes@[z] == st4.nodes@[z]);
            }
            assert forall|z: int|
                0 <= z < st4.nodes@.len() && st4.seg_of@.contains_key(z) && seg_within(
                    #[trigger] st4.seg_of@[z],
                    i as int,
                    mid as int,
                ) && st4.seg_of@[z].1 - st4.seg_of@[z].0 < mid - i implies self.nodes@[z]
                == st4.nodes@[z] by {
                assert(z != x as int);
            }
            lemma_arena_frame(
                st4.nodes@,
                self.nodes@,
                st4.seg_of@,
                self.seg_of@,
                st4.nodes@[new_left as int],
                i as int,
                mid as int,
            );
            assert forall|z: int|
                0 <= z < st4.nodes@.len() && st4.seg_of@.contains_key(z) && seg_within(
                    #[trigger] st4.seg_of@[z],
                    mid + 1,
                    j as int,
                ) && st4.seg_of@[z].1 - st4.seg_of@[z].0 < j - (mid + 1) implies self.nodes@[z]
                == st4.nodes@[z] by {
                assert(z != x as int);
            }
            lemma_arena_frame(
                st4.nodes@,
                self.nodes@,
                st4.seg_of@,
                self.seg_of@,
                st4.nodes@[new_right as int],
                mid + 1,
                j as int,
            );
            assert(self.nodes@[x as int] == c);
            assert(left_of(self.nodes@[x as int]) == new_left as int);
            assert(right_of(self.nodes@[x as int]) == new_right as int);
            assert(st4.seg_of@.contains_key(new_left as int) && st4.seg_of@[new_left as int] == (
                i as int,
                mid as int,
            ));
            assert(self.seg_of@.contains_key(new_left as int) && self.seg_of@[new_left as int] == (
                i as int,
                mid as int,
            ));
            assert(self.seg_of@.contains_key(new_right as int) && self.seg_of@[new_right as int]
                == (mid + 1, j as int));
            assert(adj(self.nodes@[x as int], self.nodes@[new_left as int])
                == self.nodes@[new_left as int]);
            assert(adj(self.nodes@[x as int], self.nodes@[new_right as int])
                == self.nodes@[new_right as int]);
            assert(new_left != x && new_right != x) by {
                assert(self.seg_of@[new_left as int] == (i as int, mid as int));
                assert(self.seg_of@[new_right as int] == (mid + 1, j as int));
                assert(self.seg_of@[x as int] == (i as int, j as int));
            }
            assert forall|z: int|
                0 <= z < pre.nodes@.len() implies self.nodes@[z] == #[trigger] pre.nodes@[z] by {
                assert(z != x as int);
                assert(st3.nodes@[z] == st2.nodes@[z]);
                assert(st4.nodes@[z] == st3.nodes@[z]);
                assert(self.nodes@[z] == st4.nodes@[z]);
            }
            assert forall|k: int| #[trigger] pre.seg_of@.contains_key(k) implies
                self.seg_of@.contains_key(k) && self.seg_of@[k] == pre.seg_of@[k] by {
                assert(k != x as int);
                assert(st1.seg_of@.contains_key(k) && st1.seg_of@[k] == pre.seg_of@[k]);
                assert(st2.seg_of@.contains_key(k) && st2.seg_of@[k] == st1.seg_of@[k]);
                assert(st3.seg_of@.contains_key(k) && st3.seg_of@[k] == st2.seg_of@[k]);
                assert(st4.seg_of@.contains_key(k) && st4.seg_of@[k] == st3.seg_of@[k]);
            }
            assert forall|k: int|
                k < pre.nodes@.len() && #[trigger] self.seg_of@.contains_key(k) implies
                pre.seg_of@.contains_key(k) by {
                assert(k < st4.nodes@.len());
                assert(st4.seg_of@.contains_key(k));
                assert(k < st3.nodes@.len());
                assert(st3.seg_of@.contains_key(k));
                assert(k < st2.nodes@.len());
                assert(st2.seg_of@.contains_key(k));
                assert(k < st1.nodes@.len());
                assert(st1.seg_of@.contains_key(k));
                assert(k != x as int);
            }
            assert(arena_ok(self.nodes@, self.seg_of@, self.nodes@[x as int], i as int, j as int));
            if lazy_coherent::<T>() && lazy_splittable::<T>() && arena_inv(
                pre.nodes@,
                pre.nodes@[curr as int],
                i as int,
                j as int,
            ) {
                // The pushed copy's invariant hands each child occurrence its
                // own; recursion and frames carry them to the fresh children,
                // whose absorbed summaries are their stored ones (both clean),
                // so the recombined parent satisfies the invariant again.
                assert(arena_inv(st1.nodes@, st1.nodes@[x as int], i as int, j as int));
                assert(arena_inv(st2.nodes@, st2.nodes@[x as int], i as int, j as int));
                assert(arena_inv(st2.nodes@, st2.nodes@[left_of(w)], i as int, mid as int));
                assert(arena_inv(st2.nodes@, st2.nodes@[right_of(w)], mid + 1, j as int));
                assert(arena_inv(self.nodes@, self.nodes@[new_left as int], i as int, mid as int));
                assert(arena_inv(self.nodes@, self.nodes@[new_right as int], mid + 1, j as int));
                lemma_arena_inv_absorb_is_log(
                    self.nodes@,
                    self.nodes@[new_left as int],
                    i as int,
                    mid as int,
                );
                lemma_arena_inv_absorb_is_log(
                    self.nodes@,
                    self.nodes@[new_right as int],
                    mid + 1,
                    j as int,
                );
                <PersistentWrapper<T> as LazyNode>::lemma_lazy_update_noop(
                    self.nodes@[new_left as int],
                    i as int,
                    mid as int,
                );
                <PersistentWrapper<T> as LazyNode>::lemma_lazy_update_noop(
                    self.nodes@[new_right as int],
                    mid + 1,
                    j as int,
                );
                <PersistentWrapper<T> as LazyNode>::lemma_lazy_update_noop(
                    self.nodes@[x as int],
                    i as int,
                    j as int,
                );
                crate::internal_utils::persistent_utils::lemma_wrapper_lazy(
                    self.nodes@[new_left as int],
                    *value,
                    i as int,
                    mid as int,
                );
                crate::internal_utils::persistent_utils::lemma_wrapper_lazy(
                    self.nodes@[new_right as int],
                    *value,
                    mid + 1,
                    j as int,
                );
                crate::internal_utils::persistent_utils::lemma_wrapper_lazy(
                    self.nodes@[x as int],
                    *value,
                    i as int,
                    j as int,
                );
                assert(arena_inv(self.nodes@, self.nodes@[x as int], i as int, j as int));
            }
            if lazy_coherent::<T>() {
                lemma_arena_leaves_len(
                    self.nodes@,
                    self.nodes@[new_left as int],
                    i as int,
                    mid as int,
                );
                lemma_arena_leaves_len(
                    self.nodes@,
                    self.nodes@[new_right as int],
                    mid + 1,
                    j as int,
                );
                lemma_arena_leaves_len(st2.nodes@, st2.nodes@[left_of(w)], i as int, mid as int);
                lemma_arena_leaves_len(st2.nodes@, st2.nodes@[right_of(w)], mid + 1, j as int);
                lemma_arena_leaves_len(st3.nodes@, st3.nodes@[new_left as int], i as int, mid as int);
                lemma_arena_leaves_len(st4.nodes@, st4.nodes@[new_right as int], mid + 1, j as int);
                // The fresh parent concatenates its children's leaves, which
                // are the two halves of the source occurrence, transformed.
                assert(self.nodes@[new_left as int] == st3.nodes@[new_left as int]);
                assert(self.nodes@[new_right as int] == st4.nodes@[new_right as int]);
                assert(arena_leaves(self.nodes@, self.nodes@[x as int], i as int, j as int)
                    == arena_leaves(self.nodes@, self.nodes@[new_left as int], i as int, mid as int)
                    + arena_leaves(self.nodes@, self.nodes@[new_right as int], mid + 1, j as int));
                assert(arena_leaves(self.nodes@, self.nodes@[new_left as int], i as int, mid as int)
                    == ranged_stage(
                    arena_leaves(st2.nodes@, st2.nodes@[left_of(w)], i as int, mid as int),
                    i as int,
                    left as int,
                    right as int,
                    *value,
                ));
                assert(arena_leaves(self.nodes@, self.nodes@[new_right as int], mid + 1, j as int)
                    == ranged_stage(
                    arena_leaves(st2.nodes@, st2.nodes@[right_of(w)], mid + 1, j as int),
                    mid + 1,
                    left as int,
                    right as int,
                    *value,
                ));
                assert(arena_leaves(st2.nodes@, st2.nodes@[x as int], i as int, j as int)
                    == arena_leaves(st2.nodes@, st2.nodes@[left_of(w)], i as int, mid as int)
                    + arena_leaves(st2.nodes@, st2.nodes@[right_of(w)], mid + 1, j as int));
                assert(arena_leaves(st2.nodes@, st2.nodes@[x as int], i as int, j as int)
                    == arena_leaves(pre.nodes@, pre.nodes@[curr as int], i as int, j as int));
                assert(arena_ok(self.nodes@, self.seg_of@, self.nodes@[x as int], i as int, j as int));
                assert(arena_leaves(self.nodes@, self.nodes@[x as int], i as int, j as int)
                    =~= ranged_stage(
                    arena_leaves(pre.nodes@, pre.nodes@[curr as int], i as int, j as int),
                    i as int,
                    left as int,
                    right as int,
                    *value,
                ));
            }
        }
        x
    }

    /// The number of different versions this tree has recorded: one from
    /// `build` plus one per `update`. Queries never change it.
    pub fn versions(&self) -> (r: usize)
        requires
            self.wf(),
        ensures
            r == self.spec_versions(),
    {
        self.roots.len()
    }

    /// Finds the smallest prefix `[0, u]` of the given version whose summary
    /// satisfies `predicate(prefix_value, value)`, reading each left summary
    /// with every pending value along the path composed in and absorbed (into
    /// a local copy, so the arena stays untouched). For a consistent tree over
    /// an associative node type the result is exactly the index of that binary
    /// descent over the version's logical leaves ([`lower_bound_descent`]),
    /// whatever the closures decide. The caller must supply a predicate that
    /// is monotonic over nested prefixes and a residual transfer `g` matching
    /// it for the descent to land on the smallest such prefix; those algebraic
    /// obligations are documented, not checked.
    pub fn lower_bound<F, G>(
        &self,
        version: usize,
        predicate: F,
        g: G,
        value: <T as Node>::Value,
    ) -> (r: usize)
        where
            F: Fn(&<T as Node>::Value, &<T as Node>::Value) -> bool,
            G: Fn(&<T as Node>::Value, <T as Node>::Value) -> <T as Node>::Value,
        requires
            self.wf(),
            version < self.spec_versions(),
            forall|a: &<T as Node>::Value, b: &<T as Node>::Value| predicate.requires((a, b)),
            forall|a: &<T as Node>::Value, b: <T as Node>::Value| g.requires((a, b)),
        ensures
            r < self.spec_n(),
            forall|
                p: spec_fn(<T as Node>::Value, <T as Node>::Value) -> bool,
                q: spec_fn(<T as Node>::Value, <T as Node>::Value) -> <T as Node>::Value,
            |
                #![trigger predicate_decides(predicate, p), residual_decides(g, q)]
                predicate_decides(predicate, p) && residual_decides(g, q)
                    && combine_associative::<T>() && lazy_coherent::<T>() && self.consistent()
                    ==> r == lower_bound_descent(
                    self@[version as int],
                    0,
                    self.spec_n() - 1,
                    p,
                    q,
                    value,
                ),
    {
        let root = self.roots[version];
        let x = self.nodes[root];
        let r = Self::lower_bound_helper(
            &self.nodes,
            Ghost(self.seg_of@),
            x,
            0,
            self.n - 1,
            predicate,
            g,
            value,
        );
        proof {
            assert(self.roots@[version as int] == root);
            assert forall|
                p: spec_fn(<T as Node>::Value, <T as Node>::Value) -> bool,
                q: spec_fn(<T as Node>::Value, <T as Node>::Value) -> <T as Node>::Value,
            |
                predicate_decides(predicate, p) && residual_decides(g, q)
                    && combine_associative::<T>() && lazy_coherent::<T>() && self.consistent()
                    implies r == lower_bound_descent(
                self@[version as int],
                0,
                self.spec_n() - 1,
                p,
                q,
                value,
            ) by {
                assert(arena_inv(self.nodes@, x, 0, self.n - 1));
                assert(self.version_leaves@[version as int] == arena_leaves(
                    self.nodes@,
                    x,
                    0,
                    self.n - 1,
                ));
            }
        }
        r
    }

    fn lower_bound_helper<F, G>(
        nodes: &Vec<PersistentWrapper<T>>,
        seg: Ghost<Map<int, (int, int)>>,
        x: PersistentWrapper<T>,
        i: usize,
        j: usize,
        predicate: F,
        g: G,
        value: <T as Node>::Value,
    ) -> (r: usize)
        where
            F: Fn(&<T as Node>::Value, &<T as Node>::Value) -> bool,
            G: Fn(&<T as Node>::Value, <T as Node>::Value) -> <T as Node>::Value,
        requires
            i <= j,
            j <= usize::MAX / 2,
            arena_ok(nodes@, seg@, x, i as int, j as int),
            forall|a: &<T as Node>::Value, b: &<T as Node>::Value| predicate.requires((a, b)),
            forall|a: &<T as Node>::Value, b: <T as Node>::Value| g.requires((a, b)),
        ensures
            i <= r <= j,
            forall|
                p: spec_fn(<T as Node>::Value, <T as Node>::Value) -> bool,
                q: spec_fn(<T as Node>::Value, <T as Node>::Value) -> <T as Node>::Value,
            |
                #![trigger predicate_decides(predicate, p), residual_decides(g, q)]
                predicate_decides(predicate, p) && residual_decides(g, q)
                    && combine_associative::<T>() && arena_inv(nodes@, x, i as int, j as int)
                    ==> r == lower_bound_descent(
                    arena_leaves(nodes@, x, i as int, j as int),
                    i as int,
                    j as int,
                    p,
                    q,
                    value,
                ),
        decreases j - i,
    {
        if i == j {
            return i;
        }
        let mid = (i + j) / 2;
        proof {
            assert(0 <= left_of(x) < nodes@.len());
            assert(0 <= right_of(x) < nodes@.len());
        }
        let li = x.left_child().unwrap().get();
        let ri = x.right_child().unwrap().get();
        let mut lw = nodes[li];
        let mut rw = nodes[ri];
        match x.lazy_value() {
            Some(p) => {
                let pv = *p;
                lw.update_lazy_value(&pv);
                rw.update_lazy_value(&pv);
            },
            None => {},
        }
        let ghost ii = i as int;
        let ghost jj = j as int;
        let ghost m = (ii + jj) / 2;
        let ghost leaves = arena_leaves(nodes@, x, ii, jj);
        proof {
            assert(li as int == left_of(x) && ri as int == right_of(x));
            assert(lw == adj(x, nodes@[li as int]));
            assert(rw == adj(x, nodes@[ri as int]));
        }
        // Absorb into a local copy so the correct left summary is read while
        // the arena stays untouched.
        let mut lv_node = lw;
        lv_node.lazy_update(i, mid);
        let left_value = lv_node.get_inner().value();
        let cond = predicate(left_value, &value);
        if cond {
            let r = Self::lower_bound_helper(nodes, seg, lw, i, mid, predicate, g, value);
            proof {
                assert forall|
                    p: spec_fn(<T as Node>::Value, <T as Node>::Value) -> bool,
                    q: spec_fn(<T as Node>::Value, <T as Node>::Value) -> <T as Node>::Value,
                |
                    predicate_decides(predicate, p) && residual_decides(g, q)
                        && combine_associative::<T>() && arena_inv(
                        nodes@,
                        x,
                        ii,
                        jj,
                    ) implies r == lower_bound_descent(leaves, ii, jj, p, q, value) by {
                    lemma_arena_inv_absorb_is_log(nodes@, lw, ii, m);
                    lemma_arena_log_is_fold(nodes@, lw, ii, m);
                    lemma_arena_leaves_len(nodes@, lw, ii, m);
                    lemma_arena_leaves_len(nodes@, rw, m + 1, jj);
                    assert(arena_leaves(nodes@, lw, ii, m) =~= leaves.subrange(0, m + 1 - ii));
                    assert(*left_value == seg_fold(
                        leaves.subrange(0, m + 1 - ii),
                    ).spec_value());
                    assert(cond == p(*left_value, value));
                    assert(r == lower_bound_descent(
                        arena_leaves(nodes@, lw, ii, m),
                        ii,
                        m,
                        p,
                        q,
                        value,
                    ));
                }
            }
            r
        } else {
            let new_value = g(left_value, value);
            let r = Self::lower_bound_helper(nodes, seg, rw, mid + 1, j, predicate, g, new_value);
            proof {
                assert forall|
                    p: spec_fn(<T as Node>::Value, <T as Node>::Value) -> bool,
                    q: spec_fn(<T as Node>::Value, <T as Node>::Value) -> <T as Node>::Value,
                |
                    predicate_decides(predicate, p) && residual_decides(g, q)
                        && combine_associative::<T>() && arena_inv(
                        nodes@,
                        x,
                        ii,
                        jj,
                    ) implies r == lower_bound_descent(leaves, ii, jj, p, q, value) by {
                    lemma_arena_inv_absorb_is_log(nodes@, lw, ii, m);
                    lemma_arena_log_is_fold(nodes@, lw, ii, m);
                    lemma_arena_leaves_len(nodes@, lw, ii, m);
                    lemma_arena_leaves_len(nodes@, rw, m + 1, jj);
                    assert(arena_leaves(nodes@, lw, ii, m) =~= leaves.subrange(0, m + 1 - ii));
                    assert(arena_leaves(nodes@, rw, m + 1, jj) =~= leaves.subrange(
                        m + 1 - ii,
                        leaves.len() as int,
                    ));
                    assert(*left_value == seg_fold(
                        leaves.subrange(0, m + 1 - ii),
                    ).spec_value());
                    assert(cond == p(*left_value, value));
                    assert(new_value == q(
                        seg_fold(leaves.subrange(0, m + 1 - ii)).spec_value(),
                        value,
                    ));
                    assert(r == lower_bound_descent(
                        arena_leaves(nodes@, rw, m + 1, jj),
                        m + 1,
                        jj,
                        p,
                        q,
                        new_value,
                    ));
                }
            }
            r
        }
    }
}

} // verus!
