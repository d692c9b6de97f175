use crate::nodes::{combine_associative, Node};
use vstd::prelude::*;
use vstd::wrapping::i64_specs;

verus! {

/// Node solving the maximum subarray problem; it only implements [`Node`].
/// Besides the answer it caches the best prefix sum, the best suffix sum and
/// the total, which `combine` rebuilds from the two operands alone. Sums wrap
/// around on overflow, so `combine` is total; associativity holds whenever no
/// intermediate sum wraps.
#[derive(Clone, Copy)]
pub struct MaxSubArraySum {
    max_sum: i64,
    max_prefix_sum: i64,
    max_suffix_sum: i64,
    sum: i64,
}

/// The larger of two machine integers.
pub open spec fn spec_max_i64(x: i64, y: i64) -> i64 {
    if x >= y {
        x
    } else {
        y
    }
}

fn max_i64(x: i64, y: i64) -> (r: i64)
    ensures
        r == spec_max_i64(x, y),
{
    if x >= y {
        x
    } else {
        y
    }
}

impl Node for MaxSubArraySum {
    type Value = i64;

    closed spec fn spec_initialize(v: i64) -> Self {
        MaxSubArraySum { max_sum: v, max_prefix_sum: v, max_suffix_sum: v, sum: v }
    }

    closed spec fn spec_combine(a: Self, b: Self) -> Self {
        MaxSubArraySum {
            max_sum: spec_max_i64(
                spec_max_i64(a.max_sum, b.max_sum),
                i64_specs::wrapping_add(a.max_suffix_sum, b.max_prefix_sum),
            ),
            max_prefix_sum: spec_max_i64(
                a.max_prefix_sum,
                i64_specs::wrapping_add(a.sum, b.max_prefix_sum),
            ),
            max_suffix_sum: spec_max_i64(
                b.max_suffix_sum,
                i64_specs::wrapping_add(b.sum, a.max_suffix_sum),
            ),
            sum: i64_specs::wrapping_add(a.sum, b.sum),
        }
    }

    closed spec fn spec_value(self) -> i64 {
        self.max_sum
    }

    fn initialize(value: &i64) -> (r: Self) {
        let v = *value;
        MaxSubArraySum { max_sum: v, max_prefix_sum: v, max_suffix_sum: v, sum: v }
    }

    fn combine(a: &Self, b: &Self) -> (r: Self) {
        MaxSubArraySum {
            max_sum: max_i64(
                max_i64(a.max_sum, b.max_sum),
                a.max_suffix_sum.wrapping_add(b.max_prefix_sum),
            ),
            max_prefix_sum: max_i64(a.max_prefix_sum, a.sum.wrapping_add(b.max_prefix_sum)),
            max_suffix_sum: max_i64(b.max_suffix_sum, b.sum.wrapping_add(a.max_suffix_sum)),
            sum: a.sum.wrapping_add(b.sum),
        }
    }

    fn value(&self) -> (r: &i64) {
        &self.max_sum
    }

    proof fn lemma_initialize_value(v: i64) {
    }
}

/// All four cached fields of a node lie within `[-bound, bound]`.
pub closed spec fn max_subarray_sum_bounded(a: MaxSubArraySum, bound: int) -> bool {
    &&& -bound <= a.max_sum <= bound
    &&& -bound <= a.max_prefix_sum <= bound
    &&& -bound <= a.max_suffix_sum <= bound
    &&& -bound <= a.sum <= bound
}

/// As long as no intermediate sum leaves the machine range, `combine` for the
/// maximum subarray problem is associative. Three operands bounded by a third
/// of the representable range are always safe.
pub proof fn lemma_max_subarray_sum_combine_associative(
    a: MaxSubArraySum,
    b: MaxSubArraySum,
    c: MaxSubArraySum,
)
    requires
        max_subarray_sum_bounded(a, 0x2aaa_aaaa_aaaa_aaaa),
        max_subarray_sum_bounded(b, 0x2aaa_aaaa_aaaa_aaaa),
        max_subarray_sum_bounded(c, 0x2aaa_aaaa_aaaa_aaaa),
    ensures
        MaxSubArraySum::spec_combine(MaxSubArraySum::spec_combine(a, b), c)
            == MaxSubArraySum::spec_combine(a, MaxSubArraySum::spec_combine(b, c)),
{
}

/// A node initialized from a value within `[-bound, bound]` is bounded by it.
pub proof fn lemma_max_subarray_sum_initialize_bounded(v: i64, bound: int)
    requires
        -bound <= v <= bound,
    ensures
        max_subarray_sum_bounded(MaxSubArraySum::spec_initialize(v), bound),
{
}

/// Combining two nodes bounded by `bound` yields a node bounded by `2 * bound`
/// (and none of the internal sums wraps when `2 * bound` is representable).
pub proof fn lemma_max_subarray_sum_combine_bounded(a: MaxSubArraySum, b: MaxSubArraySum, bound: int)
    requires
        0 <= bound,
        2 * bound <= i64::MAX,
        max_subarray_sum_bounded(a, bound),
        max_subarray_sum_bounded(b, bound),
    ensures
        max_subarray_sum_bounded(MaxSubArraySum::spec_combine(a, b), 2 * bound),
{
}

/// What `combine` answers for two freshly initialized elements: the best of
/// the two alone and of the two together.
pub proof fn lemma_max_subarray_sum_pair_value(x: i64, y: i64)
    requires
        -0x2000_0000_0000_0000 <= x <= 0x2000_0000_0000_0000,
        -0x2000_0000_0000_0000 <= y <= 0x2000_0000_0000_0000,
    ensures
        MaxSubArraySum::spec_combine(
            MaxSubArraySum::spec_initialize(x),
            MaxSubArraySum::spec_initialize(y),
        ).spec_value() == spec_max_i64(spec_max_i64(x, y), (x + y) as i64),
{
}

/// Combining never lowers the answer: the combined best subarray is at least
/// each operand's best.
pub proof fn lemma_max_subarray_sum_combine_grows(a: MaxSubArraySum, b: MaxSubArraySum)
    ensures
        MaxSubArraySum::spec_combine(a, b).spec_value() >= a.spec_value(),
        MaxSubArraySum::spec_combine(a, b).spec_value() >= b.spec_value(),
{
}

} // verus!
