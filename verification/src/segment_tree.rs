mod heap;
mod lazy;
mod lazy_persistent;
mod lazy_model;
mod lazy_recursive;
mod iterative;
mod persistent;
mod persistent_lazy;
mod range_fold;
mod recursive;

pub use self::iterative::Iterative;
pub use self::lazy::LazySegmentTree;
pub use self::lazy_persistent::LazyPersistent;
pub use self::lazy_recursive::LazyRecursive;
pub use self::lazy_recursive::ranged_stage;
pub use self::persistent::Persistent;
pub use self::persistent_lazy::LazyPersistentSegmentTree;
pub use self::persistent::lemma_persistent_non_interference;
pub use self::range_fold::int_max;
pub use self::range_fold::int_min;
pub use self::range_fold::lemma_point_update_point_query;
pub use self::range_fold::lower_bound_descent;
pub use self::range_fold::predicate_decides;
pub use self::range_fold::residual_decides;
pub use self::range_fold::lemma_seg_fold_concat;
pub use self::range_fold::seg_fold;
pub use self::recursive::Recursive;
