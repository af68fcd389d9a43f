//! The public embedder: arranges the nodes of a walked tree in the plane.

use vstd::prelude::*;

use crate::embedding::Embedding;
use crate::errors::LayouterError;
use crate::internal::embedder::{placed_ok, same_but_center, same_but_extents, Embedder};
use crate::internal::node::{emb_view, InternalNode};
use crate::layout::{
    center_eq, centers_ok, children_extent, extent_total, extents_ok, fields_ok,
    lemma_extent_total_matches_walk, lemma_sibling_sum_congruent, parents_ok, single_root,
    valid_embedding,
};
use crate::tree::{
    lemma_depth_le_index, node_width, parent_of, root_count, walk_ok, SourceTree, TreeNode,
};

verus! {

/// The VisualizeEmbedder provides a single public method [`Self::embed`] to
/// arrange the nodes of a tree in the plane.
pub struct VisualizeEmbedder;

impl VisualizeEmbedder {
    /// Creates an embedding of the nodes of the given tree in the plane.
    ///
    /// The result holds one record per walk entry, indexed by `ord`, whose
    /// depth, text, label extent, subtree extent, parent link and horizontal
    /// center satisfy the layout equations of [`valid_embedding`]: records
    /// keep the walk's texts and depths, sibling subtrees claim disjoint
    /// rooms, and every record is centered inside the block under its parent.
    ///
    /// Fails exactly when the tree has more than one top-level node, and
    /// returns no partial result in that case.
    pub fn embed(tree: &SourceTree) -> (r: Result<Embedding, LayouterError>)
        ensures
            match r {
                Ok(embedding) => root_count(tree@) <= 1 && valid_embedding(embedding@, tree@),
                Err(e) => {
                    &&& root_count(tree@) > 1
                    &&& e matches LayouterError::OtherError { msg }
                        && msg@ == "Currently we support only one root"@
                },
            },
    {
        let ghost s = tree@;
        // Insert all tree items with their indices. After this step each item
        // has 'ord', 'y_order', 'text', 'is_emphasized', 'x_extent' and
        // 'parent' set.
        let mut items = match Embedder::create_initial_embedding_data(tree) {
            Ok(items) => items,
            Err(e) => {
                return Err(e);
            },
        };
        let ghost items_a = items@;
        proof {
            lemma_initial_bridges(s, items_a);
        }

        // Set the widths 'x_extent_of_children' and 'x_extent_children' on
        // each record, bottom-up.
        Embedder::apply_children_x_extents(&mut items);
        let ghost items_b = items@;
        proof {
            lemma_extent_bridges(s, items_a, items_b);
        }

        // Finally set the property 'x_center' on each record, sweeping the
        // layers from the root downward.
        Embedder::apply_x_center(&mut items);
        let ghost items_c = items@;
        proof {
            lemma_final_embedding(s, items_a, items_b, items_c);
        }

        // Transfer the result.
        Ok(Embedder::transfer_result(items))
    }
}

/// Bridges the walk's well-formedness to what the bottom-up extent pass
/// needs: positive label extents whose total stays in the coordinate range.
proof fn lemma_initial_bridges(s: Seq<TreeNode>, items_a: Seq<InternalNode>)
    requires
        walk_ok(s),
        fields_ok(emb_view(items_a), s),
    ensures
        forall|i: int| 0 <= i < items_a.len() ==> (#[trigger] items_a[i]).x_extent >= 1,
        extent_total(emb_view(items_a), items_a.len() as int) <= usize::MAX,
{
    let va = emb_view(items_a);
    assert forall|i: int| 0 <= i < items_a.len() implies (#[trigger] items_a[i]).x_extent >= 1 by {
        assert(va[i].x_extent == s[i].text@.len() + 1);
    }
    assert forall|j: int| 0 <= j < va.len() implies (#[trigger] va[j]).x_extent == node_width(
        s[j],
    ) by {}
    lemma_extent_total_matches_walk(va, s, va.len() as int);
    assert(s.take(s.len() as int) =~= s);
}

/// Bridges the bottom-up pass to what the centering pass needs: the parent
/// structure is untouched and depths still respect the walk order.
proof fn lemma_extent_bridges(s: Seq<TreeNode>, items_a: Seq<InternalNode>, items_b: Seq<InternalNode>)
    requires
        walk_ok(s),
        fields_ok(emb_view(items_a), s),
        single_root(emb_view(items_a)),
        items_b.len() == items_a.len(),
        forall|i: int|
            0 <= i < items_a.len() ==> same_but_extents(items_a[i], #[trigger] items_b[i]),
    ensures
        single_root(emb_view(items_b)),
        forall|i: int| 0 <= i < items_b.len() ==> (#[trigger] items_b[i]).y_order <= i,
{
    let va = emb_view(items_a);
    let vb = emb_view(items_b);
    assert forall|i: int| 1 <= i < vb.len() implies (#[trigger] vb[i].parent) is Some by {
        assert(same_but_extents(items_a[i], items_b[i]));
        assert(va[i].parent is Some);
    }
    assert forall|i: int| 0 <= i < items_b.len() implies (#[trigger] items_b[i]).y_order <= i by {
        assert(same_but_extents(items_a[i], items_b[i]));
        assert(va[i].y_order == s[i].depth);
        lemma_depth_le_index(s, i);
    }
}

/// Assembles the full contract of the embedding from what the three passes
/// guarantee: the final records keep the walk's fields and parent links and
/// satisfy the extent and centering equations.
#[verifier::rlimit(60)]
proof fn lemma_final_embedding(
    s: Seq<TreeNode>,
    items_a: Seq<InternalNode>,
    items_b: Seq<InternalNode>,
    items_c: Seq<InternalNode>,
)
    requires
        walk_ok(s),
        fields_ok(emb_view(items_a), s),
        single_root(emb_view(items_a)),
        parents_ok(emb_view(items_a)),
        items_b.len() == items_a.len(),
        items_c.len() == items_b.len(),
        forall|i: int|
            0 <= i < items_a.len() ==> same_but_extents(items_a[i], #[trigger] items_b[i]),
        forall|i: int|
            0 <= i < items_b.len() ==> same_but_center(items_b[i], #[trigger] items_c[i]),
        extents_ok(emb_view(items_b)),
        forall|i: int| 0 <= i < items_c.len() ==> placed_ok(emb_view(items_c), i),
    ensures
        valid_embedding(emb_view(items_c), s),
{
    let va = emb_view(items_a);
    let vb = emb_view(items_b);
    let vc = emb_view(items_c);
    assert forall|i: int| 0 <= i < vc.len() implies (#[trigger] vc[i]).parent == vb[i].parent
        && vc[i].x_extent_children == vb[i].x_extent_children && vc[i].x_extent == vb[i].x_extent
        && vc[i].y_order == va[i].y_order && vc[i].parent == va[i].parent by {
        assert(same_but_extents(items_a[i], items_b[i]));
        assert(same_but_center(items_b[i], items_c[i]));
    }
    assert forall|i: int| 0 <= i < vc.len() implies children_extent(vc, i) == children_extent(
        vb,
        i,
    ) by {
        lemma_sibling_sum_congruent(vc, vb, Some(i as usize), vc.len() as int);
    }
    assert forall|i: int| 0 <= i < vc.len() implies {
        &&& (#[trigger] vc[i].x_extent_children) == if vc[i].x_extent >= children_extent(vc, i) {
            vc[i].x_extent as int
        } else {
            children_extent(vc, i)
        }
        &&& vc[i].x_extent >= 1
    } by {
        assert(vc[i].x_extent == vb[i].x_extent);
    }
    assert(extents_ok(vc));
    assert forall|i: int| 0 <= i < vc.len() implies match (#[trigger] vc[i].parent) {
        Some(p) => p < i && vc[p as int].y_order + 1 == vc[i].y_order,
        None => vc[i].y_order == 0,
    } by {
        assert(vc[i].parent == va[i].parent);
        assert(vc[i].y_order == va[i].y_order);
        match va[i].parent {
            Some(p) => {
                assert(vc[p as int].y_order == va[p as int].y_order);
            },
            None => {},
        }
    }
    assert(parents_ok(vc));
    assert forall|i: int| 1 <= i < vc.len() implies (#[trigger] vc[i].parent) is Some by {
        assert(vc[i].parent == va[i].parent);
    }
    assert(single_root(vc));
    assert forall|i: int| 0 <= i < vc.len() implies #[trigger] center_eq(vc, i) by {
        assert(placed_ok(vc, i));
    }
    assert(centers_ok(vc));
    assert forall|i: int| 0 <= i < vc.len() implies {
        &&& (#[trigger] vc[i]).ord == i
        &&& vc[i].y_order == s[i].depth
        &&& vc[i].text@ == s[i].text@
        &&& vc[i].is_emphasized == s[i].is_emphasized
        &&& vc[i].x_extent == s[i].text@.len() + 1
        &&& match vc[i].parent {
            Some(p) => parent_of(s, i) == Some(p as int),
            None => parent_of(s, i) is None,
        }
    } by {
        assert(same_but_extents(items_a[i], items_b[i]));
        assert(same_but_center(items_b[i], items_c[i]));
    }
    assert(fields_ok(vc, s));
}

} // verus!
