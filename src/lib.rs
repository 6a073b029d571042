//! Tree state for a directory listing: the ordering of sibling entries, the
//! pre-order master sequence built from a filesystem walk, the projection of
//! the entries that are currently visible, and the selection that moves over
//! them.

pub mod args;
pub mod builder;
pub mod git;
pub mod navigation;
pub mod sort;
pub mod tree;
pub mod utils;
