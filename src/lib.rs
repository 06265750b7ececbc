//! A binary tree in which every populated node has exactly two child slots,
//! stored in an `ego_tree` arena, with shared and exclusive node views and a
//! builder from nested descriptions.

pub mod binary_tree;
pub mod nested;
pub mod store;

pub use binary_tree::{BinaryNodeMut, BinaryNodeRef, BinaryTree};
pub use nested::{build, Nested};
