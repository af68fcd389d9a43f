//! A library that computes a planar embedding for the nodes of a tree, so that
//! the tree can be rendered as a drawing.
//!
//! The input is the depth-first pre-order walk of a tree, one entry per node
//! with its depth and its label text; the output is one positioned record per
//! node, giving a depth row (`y_order`) and a horizontal center and extent.
//! Sibling subtrees never overlap and every node is centered over the block
//! occupied by its children.

mod drawer;
mod embedder;
mod embedding;
mod errors;
mod internal;
mod layout;
mod tree;
mod visualize;

pub use drawer::Drawer;
pub use embedder::VisualizeEmbedder;
pub use embedding::{EmbeddedNode, Embedding};
pub use errors::LayouterError;
pub use tree::{SourceTree, TreeNode};
pub use visualize::Visualize;
