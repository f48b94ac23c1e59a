//! A generalized, depth-truncated suffix tree.
//!
//! Many sequences over a caller-chosen alphabet are indexed in one tree; the tree then
//! answers which of them hold a pattern as a substring or as a suffix, and where.

pub mod symbol;
pub mod data;
pub mod tree_item;
pub mod suffix_node;
pub mod suffix_tree;
pub mod matches;
pub mod iter;
pub mod utils;
