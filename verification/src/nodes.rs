use vstd::prelude::*;

verus! {

/// Base capability required by nodes of segment trees. A type which implements
/// this trait is a compressed summary of a non-empty range of values.
///
/// `combine` merges the summaries of two *adjacent* ranges, left then right.
/// Every engine in this crate states its functional contract under the
/// hypothesis [`combine_associative`]:
/// callers that supply a non-associative `combine` get an unspecified (but
/// still memory-safe and terminating) result, exactly as documented.
pub trait Node: Sized + Copy {
    /// The scalar a node is created from and the type of its aggregated value.
    type Value: Copy;

    /// What `initialize` returns.
    spec fn spec_initialize(v: Self::Value) -> Self;

    /// What `combine` returns.
    spec fn spec_combine(a: Self, b: Self) -> Self;

    /// The aggregated value read by `value`.
    spec fn spec_value(self) -> Self::Value;

    /// Creates the node of a one-element range holding `value`.
    fn initialize(value: &Self::Value) -> (r: Self)
        ensures
            r == Self::spec_initialize(*value),
    ;

    /// Merges the summaries of two adjacent ranges `[i,j]` (`a`) and `[j+1,k]`
    /// (`b`) into the summary of `[i,k]`. Must be associative; need not be
    /// commutative.
    fn combine(a: &Self, b: &Self) -> (r: Self)
        ensures
            r == Self::spec_combine(*a, *b),
    ;

    /// Reads the aggregated value.
    fn value(&self) -> (r: &Self::Value)
        ensures
            *r == self.spec_value(),
    ;

    /// A one-element node reproduces the scalar it was initialized from.
    proof fn lemma_initialize_value(v: Self::Value)
        ensures
            Self::spec_initialize(v).spec_value() == v,
    ;
}

/// Capability required by nodes of lazy segment trees: an optional pending
/// update that is composed in by `update_lazy_value` and absorbed into the
/// node's own value (for the range `[i,j]` the node stands for) by
/// `lazy_update`.
pub trait LazyNode: Node {
    /// The pending update currently staged on the node, if any.
    spec fn spec_lazy(self) -> Option<Self::Value>;

    /// What `lazy_update` leaves behind.
    spec fn spec_lazy_update(self, i: int, j: int) -> Self;

    /// What `update_lazy_value` leaves behind.
    spec fn spec_update_lazy_value(self, v: Self::Value) -> Self;

    /// Applies and clears the pending value, given the bounds `[i,j]` of the
    /// range this node stands for. If the pending slot is empty this is a
    /// no-op, never an error.
    fn lazy_update(&mut self, i: usize, j: usize)
        requires
            i <= j,
            j < usize::MAX,
        ensures
            *final(self) == old(self).spec_lazy_update(i as int, j as int),
    ;

    /// Composes `new_value` into the pending slot.
    fn update_lazy_value(&mut self, new_value: &Self::Value)
        ensures
            *final(self) == old(self).spec_update_lazy_value(*new_value),
    ;

    /// Peeks at the pending value without clearing it.
    fn lazy_value(&self) -> (r: Option<&Self::Value>)
        ensures
            match r {
                Some(v) => self.spec_lazy() == Some(*v),
                None => self.spec_lazy() is None,
            },
    ;

    /// Immediately after `lazy_update` the pending slot is empty.
    proof fn lemma_lazy_update_clears(x: Self, i: int, j: int)
        ensures
            x.spec_lazy_update(i, j).spec_lazy() is None,
    ;

    /// Immediately after `update_lazy_value` the pending slot is occupied.
    proof fn lemma_update_lazy_value_sets(x: Self, v: Self::Value)
        ensures
            x.spec_update_lazy_value(v).spec_lazy() is Some,
    ;

    /// `lazy_update` on an empty pending slot is a safe no-op.
    proof fn lemma_lazy_update_noop(x: Self, i: int, j: int)
        requires
            x.spec_lazy() is None,
        ensures
            x.spec_lazy_update(i, j) == x,
    ;

    /// Freshly initialized nodes carry no pending update.
    proof fn lemma_initialize_no_lazy(v: Self::Value)
        ensures
            Self::spec_initialize(v).spec_lazy() is None,
    ;

    /// Freshly combined nodes carry no pending update.
    proof fn lemma_combine_no_lazy(a: Self, b: Self)
        ensures
            Self::spec_combine(a, b).spec_lazy() is None,
    ;
}

/// Capability required by nodes of persistent segment trees: two child-slot
/// indices into the owning engine's node arena.
pub trait PersistentNode: Node {
    /// The stored index of the left child.
    spec fn spec_left_child(self) -> usize;

    /// The stored index of the right child.
    spec fn spec_right_child(self) -> usize;

    /// What `set_children` leaves behind.
    spec fn spec_set_children(self, left: usize, right: usize) -> Self;

    /// Gives the index of the left child.
    fn left_child(&self) -> (r: usize)
        ensures
            r == self.spec_left_child(),
    ;

    /// Gives the index of the right child.
    fn right_child(&self) -> (r: usize)
        ensures
            r == self.spec_right_child(),
    ;

    /// Sets the saved indices of both children.
    fn set_children(&mut self, left: usize, right: usize)
        ensures
            *final(self) == old(self).spec_set_children(left, right),
    ;

    /// `set_children` stores exactly the indices it was given.
    proof fn lemma_set_children_stores(x: Self, left: usize, right: usize)
        ensures
            x.spec_set_children(left, right).spec_left_child() == left,
            x.spec_set_children(left, right).spec_right_child() == right,
    ;

    /// `set_children` does not disturb the aggregated value.
    proof fn lemma_set_children_keeps_value(x: Self, left: usize, right: usize)
        ensures
            x.spec_set_children(left, right).spec_value() == x.spec_value(),
    ;
}

/// Element values that can be added and scaled by a repetition count, the raw
/// material of [`Sum`](crate::utils::Sum) nodes. Additions wrap around for the
/// primitive implementations, so they are total and associative.
pub trait AddValue: Sized + Copy {
    /// What `add_value` returns.
    spec fn spec_add_value(self, other: Self) -> Self;

    /// What `scale` returns; meant to behave as `k`-fold repeated addition.
    spec fn spec_scale(self, k: usize) -> Self;

    /// Adds two values.
    fn add_value(self, other: Self) -> (r: Self)
        ensures
            r == self.spec_add_value(other),
    ;

    /// Repeats the value `k` times under addition.
    fn scale(self, k: usize) -> (r: Self)
        requires
            k >= 1,
        ensures
            r == self.spec_scale(k),
    ;
}

/// Element values carrying a total order, the raw material of
/// [`Min`](crate::utils::Min) and [`Max`](crate::utils::Max) nodes.
pub trait OrdValue: Sized + Copy {
    /// The order `le_value` decides.
    spec fn spec_le_value(self, other: Self) -> bool;

    /// Decides `self <= other` in the value's total order.
    fn le_value(&self, other: &Self) -> (r: bool)
        ensures
            r == self.spec_le_value(*other),
    ;

    /// The order is total.
    proof fn lemma_le_total(a: Self, b: Self)
        ensures
            a.spec_le_value(b) || b.spec_le_value(a),
    ;

    /// The order is antisymmetric.
    proof fn lemma_le_antisymmetric(a: Self, b: Self)
        requires
            a.spec_le_value(b),
            b.spec_le_value(a),
        ensures
            a == b,
    ;

    /// The order is transitive.
    proof fn lemma_le_transitive(a: Self, b: Self, c: Self)
        requires
            a.spec_le_value(b),
            b.spec_le_value(c),
        ensures
            a.spec_le_value(c),
    ;
}

impl AddValue for usize {
    open spec fn spec_add_value(self, other: Self) -> Self {
        vstd::wrapping::usize_specs::wrapping_add(self, other)
    }

    open spec fn spec_scale(self, k: usize) -> Self {
        vstd::wrapping::usize_specs::wrapping_mul(self, k)
    }

    fn add_value(self, other: Self) -> (r: Self) {
        self.wrapping_add(other)
    }

    fn scale(self, k: usize) -> (r: Self) {
        self.wrapping_mul(k)
    }
}

impl AddValue for u64 {
    open spec fn spec_add_value(self, other: Self) -> Self {
        vstd::wrapping::u64_specs::wrapping_add(self, other)
    }

    open spec fn spec_scale(self, k: usize) -> Self {
        vstd::wrapping::u64_specs::wrapping_mul(self, (k as u64))
    }

    fn add_value(self, other: Self) -> (r: Self) {
        self.wrapping_add(other)
    }

    fn scale(self, k: usize) -> (r: Self) {
        self.wrapping_mul(k as u64)
    }
}

impl OrdValue for usize {
    open spec fn spec_le_value(self, other: Self) -> bool {
        self <= other
    }

    fn le_value(&self, other: &Self) -> (r: bool) {
        *self <= *other
    }

    proof fn lemma_le_total(a: Self, b: Self) {
    }

    proof fn lemma_le_antisymmetric(a: Self, b: Self) {
    }

    proof fn lemma_le_transitive(a: Self, b: Self, c: Self) {
    }
}

impl OrdValue for u64 {
    open spec fn spec_le_value(self, other: Self) -> bool {
        self <= other
    }

    fn le_value(&self, other: &Self) -> (r: bool) {
        *self <= *other
    }

    proof fn lemma_le_total(a: Self, b: Self) {
    }

    proof fn lemma_le_antisymmetric(a: Self, b: Self) {
    }

    proof fn lemma_le_transitive(a: Self, b: Self, c: Self) {
    }
}

impl OrdValue for i64 {
    open spec fn spec_le_value(self, other: Self) -> bool {
        self <= other
    }

    fn le_value(&self, other: &Self) -> (r: bool) {
        *self <= *other
    }

    proof fn lemma_le_total(a: Self, b: Self) {
    }

    proof fn lemma_le_antisymmetric(a: Self, b: Self) {
    }

    proof fn lemma_le_transitive(a: Self, b: Self, c: Self) {
    }
}

/// The algebraic contract every engine's functional guarantees rest on:
/// `combine` merges summaries associatively. It need not be commutative.
pub open spec fn combine_associative<T: Node>() -> bool {
    forall|a: T, b: T, c: T|
        #[trigger] T::spec_combine(T::spec_combine(a, b), c) == T::spec_combine(
            a,
            T::spec_combine(b, c),
        )
}

/// The node `c`, adjusted by the pending update of `x` (if any): what a child
/// holding `c` becomes when `x`'s pending value is pushed one level down.
pub open spec fn adj<T: LazyNode>(x: T, c: T) -> T {
    match x.spec_lazy() {
        Some(p) => c.spec_update_lazy_value(p),
        None => c,
    }
}

/// The algebraic contract of a well-behaved lazy node, beyond the trait laws:
/// staging a value and then absorbing is the same as absorbing first, and a
/// freshly staged value distributes over an earlier push-down adjustment. The
/// lazy engines' leaf-level guarantees hold under this hypothesis.
pub open spec fn lazy_coherent<T: LazyNode>() -> bool {
    &&& forall|x: T, v: T::Value, i: int, j: int|
        (#[trigger] x.spec_update_lazy_value(v).spec_lazy_update(i, j)) == x.spec_lazy_update(
            i,
            j,
        ).spec_update_lazy_value(v).spec_lazy_update(i, j)
    &&& forall|x: T, v: T::Value, c: T|
        #![trigger adj(x.spec_update_lazy_value(v), c)]
        adj(x.spec_update_lazy_value(v), c) == adj(x, c).spec_update_lazy_value(v)
}

/// The remaining algebraic contract of a range-update operation: staging a
/// value on a combined summary of two clean adjacent halves is the same as
/// staging it on each half and combining. Together with [`lazy_coherent`] and
/// [`combine_associative`] this pins the summaries a lazy tree answers with.
pub open spec fn lazy_splittable<T: LazyNode>() -> bool {
    forall|a: T, b: T, v: T::Value, i: int, m: int, j: int|
        #![trigger
            T::spec_combine(a, b).spec_update_lazy_value(v).spec_lazy_update(i, j),
            a.spec_update_lazy_value(v).spec_lazy_update(i, m)
        ]
        i <= m < j && j - i < usize::MAX && a.spec_lazy() is None && b.spec_lazy() is None
            ==> T::spec_combine(
            a,
            b,
        ).spec_update_lazy_value(v).spec_lazy_update(i, j) == T::spec_combine(
            a.spec_update_lazy_value(v).spec_lazy_update(i, m),
            b.spec_update_lazy_value(v).spec_lazy_update(m + 1, j),
        )
}

/// Wrapping addition on `usize` is associative.
pub proof fn lemma_usize_add_associative(a: usize, b: usize, c: usize)
    ensures
        a.spec_add_value(b).spec_add_value(c) == a.spec_add_value(b.spec_add_value(c)),
{
}

/// Wrapping addition on `u64` is associative.
pub proof fn lemma_u64_add_associative(a: u64, b: u64, c: u64)
    ensures
        a.spec_add_value(b).spec_add_value(c) == a.spec_add_value(b.spec_add_value(c)),
{
}

/// Wrapping addition on `usize` is commutative.
pub proof fn lemma_usize_add_commutative(a: usize, b: usize)
    ensures
        a.spec_add_value(b) == b.spec_add_value(a),
{
}

/// Wrapping scaling on `usize` distributes over wrapping addition: `k` copies
/// of a sum amount to `k` copies of each part, added.
pub proof fn lemma_usize_scale_distributes(x: usize, y: usize, k: usize)
    ensures
        x.spec_add_value(y).spec_scale(k) == x.spec_scale(k).spec_add_value(y.spec_scale(k)),
{
    let m = usize::MAX as int + 1;
    let s = x as int + y as int;
    let sw = if s > usize::MAX as int {
        s - m
    } else {
        s
    };
    vstd::arithmetic::mul::lemma_mul_is_distributive_add_other_way(k as int, x as int, y as int);
    if s > usize::MAX as int {
        assert(sw * (k as int) == (-(k as int)) * m + s * (k as int)) by (nonlinear_arith)
            requires
                sw == s - m,
        ;
        vstd::arithmetic::mul::lemma_mul_is_commutative(-(k as int), m);
        vstd::arithmetic::div_mod::lemma_mod_multiples_vanish(-(k as int), s * (k as int), m);
    }
    vstd::arithmetic::mul::lemma_mul_nonnegative(x as int, k as int);
    vstd::arithmetic::mul::lemma_mul_nonnegative(y as int, k as int);
    vstd::arithmetic::mul::lemma_mul_nonnegative(sw, k as int);
    vstd::arithmetic::div_mod::lemma_add_mod_noop(x as int * k as int, y as int * k as int, m);
    vstd::arithmetic::div_mod::lemma_mod_bound(x as int * k as int, m);
    vstd::arithmetic::div_mod::lemma_mod_bound(y as int * k as int, m);
    let p1 = (x as int * k as int) % m;
    let p2 = (y as int * k as int) % m;
    assert(x.spec_add_value(y).spec_scale(k) as int == (sw * (k as int)) % m);
    assert((sw * (k as int)) % m == (s * (k as int)) % m);
    assert((s * (k as int)) % m == (p1 + p2) % m);
    assert(x.spec_scale(k).spec_add_value(y.spec_scale(k)) as int == (p1 + p2) % m) by {
        vstd::arithmetic::div_mod::lemma_mod_bound(p1 + p2, m);
        if p1 + p2 > usize::MAX {
            assert((p1 + p2) % m == p1 + p2 - m) by {
                vstd::arithmetic::div_mod::lemma_mod_sub_multiples_vanish(p1 + p2, m);
                vstd::arithmetic::div_mod::lemma_small_mod((p1 + p2 - m) as nat, m as nat);
            }
        } else {
            vstd::arithmetic::div_mod::lemma_small_mod((p1 + p2) as nat, m as nat);
        }
    }
}

/// Wrapping scaling on `usize` splits over a sum of repetition counts: `k1 +
/// k2` copies of a value amount to `k1` copies plus `k2` copies.
pub proof fn lemma_usize_scale_splits(v: usize, k1: usize, k2: usize)
    requires
        k1 + k2 <= usize::MAX,
    ensures
        v.spec_scale((k1 + k2) as usize) == v.spec_scale(k1).spec_add_value(v.spec_scale(k2)),
{
    let m = usize::MAX as int + 1;
    let p1 = (v as int) * (k1 as int);
    let p2 = (v as int) * (k2 as int);
    vstd::arithmetic::mul::lemma_mul_is_distributive_add(v as int, k1 as int, k2 as int);
    assert((v as int) * (k1 as int + k2 as int) == p1 + p2);
    vstd::arithmetic::div_mod::lemma_add_mod_noop(p1, p2, m);
    vstd::arithmetic::div_mod::lemma_mod_bound(p1, m);
    vstd::arithmetic::div_mod::lemma_mod_bound(p2, m);
    vstd::arithmetic::mul::lemma_mul_nonnegative(v as int, k1 as int);
    vstd::arithmetic::mul::lemma_mul_nonnegative(v as int, k2 as int);
    assert(v.spec_scale(k1) as int == p1 % m);
    assert(v.spec_scale(k2) as int == p2 % m);
    assert((p1 % m + p2 % m) % m == (p1 + p2) % m);
    assert(v.spec_scale(k1).spec_add_value(v.spec_scale(k2)) as int == (p1 % m + p2 % m) % m) by {
        vstd::arithmetic::div_mod::lemma_mod_bound(p1 % m + p2 % m, m);
        if p1 % m + p2 % m > usize::MAX {
            assert((p1 % m + p2 % m) % m == p1 % m + p2 % m - m) by {
                vstd::arithmetic::div_mod::lemma_mod_sub_multiples_vanish(p1 % m + p2 % m, m);
                vstd::arithmetic::div_mod::lemma_small_mod((p1 % m + p2 % m - m) as nat, m as nat);
            }
        } else {
            vstd::arithmetic::div_mod::lemma_small_mod((p1 % m + p2 % m) as nat, m as nat);
        }
    }
}

} // verus!
