//! Reconstruction of a strict binary search tree from its preorder traversal,
//! and a level-order (breadth-first) view of the result with explicit null
//! markers for absent children.

pub mod builder;
pub mod traverse;
pub mod tree;

pub use builder::bst_from_preorder;
pub use traverse::level_order_traversal;
pub use traverse::preorder_traversal;
pub use tree::TreeNode;
