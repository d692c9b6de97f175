mod lazy_set_wrapper;
mod max;
mod max_subarray_sum;
mod min;
mod persistent_wrapper;
mod sum;

pub use self::lazy_set_wrapper::LazySetWrapper;
pub use self::lazy_set_wrapper::lemma_lazy_set_wrapper_coherent;
pub use self::lazy_set_wrapper::lemma_lazy_set_wrapper_semantics;
pub use self::lazy_set_wrapper::lemma_lazy_set_wrapper_splittable;
pub use self::lazy_set_wrapper::lemma_lazy_set_wrapper_combine_associative;
pub use self::max::Max;
pub use self::max::lemma_max_combine_associative;
pub use self::max::lemma_max_combine_value;
pub use self::max_subarray_sum::MaxSubArraySum;
pub use self::max_subarray_sum::lemma_max_subarray_sum_combine_associative;
pub use self::max_subarray_sum::lemma_max_subarray_sum_combine_bounded;
pub use self::max_subarray_sum::lemma_max_subarray_sum_combine_grows;
pub use self::max_subarray_sum::lemma_max_subarray_sum_initialize_bounded;
pub use self::max_subarray_sum::lemma_max_subarray_sum_pair_value;
pub use self::max_subarray_sum::max_subarray_sum_bounded;
pub use self::max_subarray_sum::spec_max_i64;
pub use self::min::Min;
pub use self::min::lemma_min_combine_associative;
pub use self::min::lemma_min_combine_value;
pub use self::persistent_wrapper::PersistentWrapper;
pub use self::persistent_wrapper::lemma_persistent_wrapper_combine_associative;
pub use self::persistent_wrapper::lemma_persistent_wrapper_lazy_coherent;
pub use self::sum::Sum;
pub use self::sum::lemma_sum_combine_associative;
pub use self::sum::lemma_sum_lazy_coherent;
pub use self::sum::lemma_sum_lazy_splittable;
pub use self::sum::lemma_sum_semantics;
pub use self::sum::lemma_sum_usize_lawful;
