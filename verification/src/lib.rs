//! Segment-tree engines over an arbitrary associative combining operation.
//!
//! The crate offers five engine variants that share a common node-capability
//! abstraction: an iterative bottom-up tree, a recursive top-down tree, a
//! lazy-propagation tree, a persistent (path-copying) tree and a
//! lazy-persistent tree. Node capabilities are the traits of [`nodes`];
//! ready-made aggregators live in [`utils`] and [`default`].

/// Ready-made node implementations (sum, min, maximum-subarray-sum).
pub mod default;
/// Internal helpers shared by the persistent engines.
pub mod internal_utils;
/// The node capability traits and the element-value traits they build on.
pub mod nodes;
/// The segment tree engines.
pub mod segment_tree;
/// Ready-made node implementations and capability wrappers.
pub mod utils;

pub use segment_tree::{Iterative, LazyPersistent, LazyRecursive, Persistent, Recursive};
