//! An ordered map from `u64` keys to values, stored in an AVL tree (the
//! heights of sibling subtrees differ by at most one) whose nodes cache their
//! subtree size, with rank/select queries, entry cursors, and a
//! double-ended, bound-restricted traversal engine with exact counts.

pub mod order;
pub mod node;
pub mod marked;
pub mod iter;
pub mod into_iter;
pub mod map;
pub mod laws;
