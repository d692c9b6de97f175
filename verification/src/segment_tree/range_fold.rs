use crate::nodes::{combine_associative, Node};
use vstd::prelude::*;

verus! {

/// Left-to-right fold of `combine` over a non-empty sequence of nodes: the
/// summary of the concatenation of the ranges the nodes stand for. This is the
/// value the engines' query contracts promise.
pub open spec fn seg_fold<T: Node>(s: Seq<T>) -> T
    recommends
        s.len() >= 1,
    decreases s.len(),
{
    if s.len() <= 1 {
        s[0]
    } else {
        T::spec_combine(seg_fold(s.drop_last()), s.last())
    }
}

/// Under associativity, folding two adjacent ranges and combining the results
/// gives the fold of the concatenated range.
pub proof fn lemma_seg_fold_concat<T: Node>(a: Seq<T>, b: Seq<T>)
    requires
        combine_associative::<T>(),
        a.len() >= 1,
        b.len() >= 1,
    ensures
        seg_fold(a + b) == T::spec_combine(seg_fold(a), seg_fold(b)),
    decreases b.len(),
{
    if b.len() == 1 {
        assert((a + b).drop_last() =~= a);
        assert((a + b).last() == b[0]);
    } else {
        assert((a + b).drop_last() =~= a + b.drop_last());
        lemma_seg_fold_concat::<T>(a, b.drop_last());
        assert(T::spec_combine(
            T::spec_combine(seg_fold(a), seg_fold(b.drop_last())),
            b.last(),
        ) == T::spec_combine(seg_fold(a), T::spec_combine(seg_fold(b.drop_last()), b.last())));
    }
}

/// The larger of two mathematical integers.
pub open spec fn int_max(a: int, b: int) -> int {
    if a >= b {
        a
    } else {
        b
    }
}

/// The smaller of two mathematical integers.
pub open spec fn int_min(a: int, b: int) -> int {
    if a <= b {
        a
    } else {
        b
    }
}

/// Every call of the two-reference predicate closure answers exactly `p` of
/// the two values it is shown.
pub open spec fn predicate_decides<F, V>(f: F, p: spec_fn(V, V) -> bool) -> bool
    where F: Fn(&V, &V) -> bool
{
    forall|a: &V, b: &V, o: bool| #[trigger] f.ensures((a, b), o) ==> o == p(*a, *b)
}

/// Every call of the residual-transfer closure answers exactly `q` of the two
/// values it is shown.
pub open spec fn residual_decides<F, V>(g: F, q: spec_fn(V, V) -> V) -> bool
    where F: Fn(&V, V) -> V
{
    forall|a: &V, b: V, o: V| #[trigger] g.ensures((a, b), o) ==> o == q(*a, b)
}

/// The index the predicate-guided binary descent lands on, over the leaves
/// `s` of a subtree standing for `[i, j]`: at each inner segment the left
/// half's summary value decides the branch, and descending right replaces the
/// target by the residual of the left summary. For a predicate monotonic over
/// nested prefixes with a matching residual this is the smallest prefix end
/// satisfying the predicate (or the last leaf if none does); the engines'
/// contracts pin their result to this descent whatever the closures decide.
pub open spec fn lower_bound_descent<T: Node>(
    s: Seq<T>,
    i: int,
    j: int,
    p: spec_fn(<T as Node>::Value, <T as Node>::Value) -> bool,
    q: spec_fn(<T as Node>::Value, <T as Node>::Value) -> <T as Node>::Value,
    v: <T as Node>::Value,
) -> int
    decreases j - i,
{
    if i >= j {
        i
    } else {
        let mid = (i + j) / 2;
        let lv = seg_fold(s.subrange(0, mid + 1 - i)).spec_value();
        if p(lv, v) {
            lower_bound_descent(s.subrange(0, mid + 1 - i), i, mid, p, q, v)
        } else {
            lower_bound_descent(
                s.subrange(mid + 1 - i, s.len() as int),
                mid + 1,
                j,
                p,
                q,
                q(lv, v),
            )
        }
    }
}

/// After a point update, querying that point gives back exactly the updated
/// value, and the one-point summary of every other position is unaffected:
/// the law tying the engines' `update` and `query` contracts together.
pub proof fn lemma_point_update_point_query<T: Node>(
    pre: Seq<T>,
    post: Seq<T>,
    p: int,
    v: T::Value,
    q: int,
)
    requires
        0 <= p < pre.len(),
        post == pre.update(p, T::spec_initialize(v)),
        0 <= q < pre.len(),
    ensures
        seg_fold(post.subrange(p, p + 1)).spec_value() == v,
        q != p ==> seg_fold(post.subrange(q, q + 1)) == seg_fold(pre.subrange(q, q + 1)),
{
    T::lemma_initialize_value(v);
    assert(post.subrange(p, p + 1) =~= seq![T::spec_initialize(v)]);
    if q != p {
        assert(post.subrange(q, q + 1) =~= pre.subrange(q, q + 1));
    }
}

} // verus!
