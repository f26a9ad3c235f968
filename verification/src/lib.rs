//! Merge sort over ordered, copyable values, arranged so that the two halves of
//! a sequence can be sorted independently and merged afterwards.

pub mod container;
pub mod coordinator;
pub mod merge;
pub mod order;
pub mod sort;

pub use crate::merge::merge;
pub use crate::sort::merge_sort;
