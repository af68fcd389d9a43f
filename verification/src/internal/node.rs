//! The per-node working records of the embedding algorithm.

use vstd::prelude::*;

use crate::embedding::EmbeddedNode;

verus! {

/// The [InternalNode] is the in-progress embedding information for one single
/// tree node. It carries one field more than the public record: the summed
/// extent of the node's direct children, which the centering pass reads back.
pub(crate) struct InternalNode {
    /// The node's level; the root has level 0.
    pub y_order: usize,
    /// The logical x coordinate of the node's center.
    pub x_center: usize,
    /// The x-extent of the node's text representation.
    pub x_extent: usize,
    /// The summed x-extent of all direct children of the node.
    pub x_extent_of_children: usize,
    /// The maximum of `x_extent` and `x_extent_of_children`.
    pub x_extent_children: usize,
    /// The text representation of the node's data.
    pub text: String,
    /// True when the drawer should emphasize this node.
    pub is_emphasized: bool,
    /// The parent's `ord`, if there is one.
    pub parent: Option<usize>,
    /// The node's position in the depth-first walk order.
    pub ord: usize,
}

impl InternalNode {
    /// The public record this working record projects to.
    pub(crate) open spec fn to_embedded(self) -> EmbeddedNode {
        EmbeddedNode {
            y_order: self.y_order,
            x_center: self.x_center,
            x_extent: self.x_extent,
            x_extent_children: self.x_extent_children,
            text: self.text,
            is_emphasized: self.is_emphasized,
            parent: self.parent,
            ord: self.ord,
        }
    }
}

/// The projection of the whole working state to public records.
pub(crate) open spec fn emb_view(items: Seq<InternalNode>) -> Seq<EmbeddedNode> {
    items.map_values(|n: InternalNode| n.to_embedded())
}

/// Projecting after an update is updating the projection.
pub(crate) proof fn lemma_emb_view_update(items: Seq<InternalNode>, k: int, v: InternalNode)
    requires
        0 <= k < items.len(),
    ensures
        emb_view(items.update(k, v)) =~= emb_view(items).update(k, v.to_embedded()),
{
}

/// The owned storage for all in-progress node records, indexed by `ord`.
///
/// In the depth-first walk that creates the records, a node's `ord` is its
/// position, so positional access doubles as identity lookup.
pub(crate) struct EmbeddingHelperData {
    items: Vec<InternalNode>,
}

impl View for EmbeddingHelperData {
    type V = Seq<InternalNode>;

    closed spec fn view(&self) -> Seq<InternalNode> {
        self.items@
    }
}

impl EmbeddingHelperData {
    /// Empty storage, sized for a known node count.
    pub(crate) fn with_capacity(capacity: usize) -> (r: EmbeddingHelperData)
        ensures
            r@ == Seq::<InternalNode>::empty(),
    {
        let items = Vec::with_capacity(capacity);
        proof {
            assert(items@ =~= Seq::<InternalNode>::empty());
        }
        EmbeddingHelperData { items }
    }

    /// The number of stored records.
    pub(crate) fn len(&self) -> (n: usize)
        ensures
            n == self@.len(),
    {
        self.items.len()
    }

    /// Stores `item` at position `ord`; each `ord` is written exactly once,
    /// in order.
    pub(crate) fn insert(&mut self, ord: usize, item: InternalNode)
        requires
            ord == old(self)@.len(),
        ensures
            final(self)@ == old(self)@.push(item),
    {
        let _ = ord;
        self.items.push(item);
    }

    /// Positional access to a record.
    pub(crate) fn at(&self, ord: usize) -> (r: &InternalNode)
        requires
            ord < self@.len(),
        ensures
            *r == self@[ord as int],
    {
        &self.items[ord]
    }

    /// Overwrites the two extent fields the bottom-up pass computes.
    pub(crate) fn set_x_extent_children(&mut self, ord: usize, xec: usize)
        requires
            ord < old(self)@.len(),
        ensures
            final(self)@ == old(self)@.update(
                ord as int,
                (InternalNode { x_extent_children: xec, ..(old(self)@[ord as int]) }),
            ),
    {
        self.items[ord].x_extent_children = xec;
        proof {
            assert(self.items@ =~= old(self)@.update(
                ord as int,
                (InternalNode { x_extent_children: xec, ..(old(self)@[ord as int]) }),
            ));
        }
    }

    /// Adds one child's extent to a parent's summed children extent.
    pub(crate) fn add_child_extent(&mut self, ord: usize, amount: usize)
        requires
            ord < old(self)@.len(),
            old(self)@[ord as int].x_extent_of_children + amount <= usize::MAX,
        ensures
            final(self)@ == old(self)@.update(
                ord as int,
                (InternalNode {
                    x_extent_of_children: (old(self)@[ord as int].x_extent_of_children
                        + amount) as usize,
                    ..(old(self)@[ord as int])
                }),
            ),
    {
        let new_sum = self.items[ord].x_extent_of_children + amount;
        self.items[ord].x_extent_of_children = new_sum;
        proof {
            assert(self.items@ =~= old(self)@.update(
                ord as int,
                (InternalNode {
                    x_extent_of_children: (old(self)@[ord as int].x_extent_of_children
                        + amount) as usize,
                    ..(old(self)@[ord as int])
                }),
            ));
        }
    }

    /// Sets the horizontal center the top-down pass computes.
    pub(crate) fn set_x_center(&mut self, ord: usize, x_center: usize)
        requires
            ord < old(self)@.len(),
        ensures
            final(self)@ == old(self)@.update(
                ord as int,
                (InternalNode { x_center: x_center, ..(old(self)@[ord as int]) }),
            ),
    {
        self.items[ord].x_center = x_center;
        proof {
            assert(self.items@ =~= old(self)@.update(
                ord as int,
                (InternalNode { x_center: x_center, ..(old(self)@[ord as int]) }),
            ));
        }
    }
}

} // verus!
