mod max_subarray_sum;
mod min;
mod sum;

pub use self::max_subarray_sum::MaxSubArraySum;
pub use self::min::Min;
pub use self::min::lemma_min_combine_associative;
pub use self::min::lemma_min_lazy_coherent;
pub use self::min::lemma_min_lazy_splittable;
pub use self::min::lemma_min_semantics;
pub use self::sum::Sum;
pub use self::sum::lemma_sum_combine_associative;
pub use self::sum::lemma_sum_lazy_coherent;
pub use self::sum::lemma_sum_lazy_splittable;
pub use self::sum::lemma_sum_semantics;
