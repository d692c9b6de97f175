use crate::nodes::Node;
use vstd::prelude::*;
use vstd::wrapping::i64_specs;

verus! {

/// Node solving the maximum subarray problem; it just implements [`Node`].
/// The answer, the best prefix sum, the best suffix sum and the total are all
/// cached so that `combine` can rebuild them from the two operands alone.
/// Sums wrap around on overflow, so `combine` is total.
#[derive(Clone, Copy)]
pub struct MaxSubArraySum {
    max_sum: i64,
    max_prefix_sum: i64,
    max_suffix_sum: i64,
    sum: i64,
}

impl Node for MaxSubArraySum {
    type Value = i64;

    closed spec fn spec_initialize(v: i64) -> Self {
        MaxSubArraySum { max_sum: v, max_prefix_sum: v, max_suffix_sum: v, sum: v }
    }

    closed spec fn spec_combine(a: Self, b: Self) -> Self {
        MaxSubArraySum {
            max_sum: crate::utils::spec_max_i64(
                crate::utils::spec_max_i64(a.max_sum, b.max_sum),
                i64_specs::wrapping_add(a.max_suffix_sum, b.max_prefix_sum),
            ),
            max_prefix_sum: crate::utils::spec_max_i64(
                a.max_prefix_sum,
                i64_specs::wrapping_add(a.sum, b.max_prefix_sum),
            ),
            max_suffix_sum: crate::utils::spec_max_i64(
                b.max_suffix_sum,
                i64_specs::wrapping_add(b.sum, a.max_suffix_sum),
            ),
            sum: i64_specs::wrapping_add(a.sum, b.sum),
        }
    }

    closed spec fn spec_value(self) -> i64 {
        self.max_sum
    }

    fn initialize(value: &i64) -> (r: Self) {
        let v = *value;
        MaxSubArraySum { max_sum: v, max_prefix_sum: v, max_suffix_sum: v, sum: v }
    }

    fn combine(a: &Self, b: &Self) -> (r: Self) {
        let best = if a.max_sum >= b.max_sum {
            a.max_sum
        } else {
            b.max_sum
        };
        let across = a.max_suffix_sum.wrapping_add(b.max_prefix_sum);
        let prefix_across = a.sum.wrapping_add(b.max_prefix_sum);
        let suffix_across = b.sum.wrapping_add(a.max_suffix_sum);
        MaxSubArraySum {
            max_sum: if best >= across {
                best
            } else {
                across
            },
            max_prefix_sum: if a.max_prefix_sum >= prefix_across {
                a.max_prefix_sum
            } else {
                prefix_across
            },
            max_suffix_sum: if b.max_suffix_sum >= suffix_across {
                b.max_suffix_sum
            } else {
                suffix_across
            },
            sum: a.sum.wrapping_add(b.sum),
        }
    }

    fn value(&self) -> (r: &i64) {
        &self.max_sum
    }

    proof fn lemma_initialize_value(v: i64) {
    }
}

} // verus!
