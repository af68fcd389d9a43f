//! The data structures of the public output.

use vstd::prelude::*;

verus! {

/// The Embedding is the interface to drawers that need the embedding for the
/// purpose of transforming it to their own output format.
pub type Embedding = Vec<EmbeddedNode>;

/// The [EmbeddedNode] is the embedding information for one single tree node.
/// It is used only in the collection type [Embedding], indexed by `ord`.
#[derive(Debug, Clone)]
pub struct EmbeddedNode {
    /// The node's level; the root has level 0. Can be used to calculate a y
    /// coordinate for the node.
    pub y_order: usize,
    /// The logical x coordinate of the node's center.
    pub x_center: usize,
    /// The x-extent of the node's text representation in logical coordinate
    /// units: one unit per character plus one unit of padding.
    pub x_extent: usize,
    /// The maximum of the node's own x-extent and the sum of all direct
    /// children's `x_extent_children`: the space the subtree occupies.
    pub x_extent_children: usize,
    /// The text representation of the node's data.
    pub text: String,
    /// True when the drawer should emphasize this node's text.
    pub is_emphasized: bool,
    /// The parent's `ord`, `None` only for the root.
    pub parent: Option<usize>,
    /// A unique number reflecting the depth-first walk order of the nodes in
    /// the tree; parents come before their descendants.
    pub ord: usize,
}

impl Default for EmbeddedNode {
    /// An all-zero record with an empty text.
    fn default() -> (e: EmbeddedNode)
        ensures
            e.y_order == 0 && e.x_center == 0 && e.x_extent == 0 && e.x_extent_children == 0,
            e.text@ == Seq::<char>::empty(),
            e.is_emphasized == false && e.parent is None && e.ord == 0,
    {
        EmbeddedNode {
            y_order: 0,
            x_center: 0,
            x_extent: 0,
            x_extent_children: 0,
            text: String::new(),
            is_emphasized: false,
            parent: None,
            ord: 0,
        }
    }
}

} // verus!
