//! The staged embedding algorithm on the working records.
//!
//! The `Embedder` runs three passes. The first walks the tree once and
//! creates one record per node with its `ord`, depth, text and parent link.
//! The second accumulates, from the deepest nodes upward, each node's summed
//! children extent and its own occupied extent. The third sweeps the depth
//! layers from the root downward and assigns every node its horizontal
//! center. A final projection turns the working records into the public ones.

use vstd::prelude::*;

use crate::embedding::{EmbeddedNode, Embedding};
use crate::errors::LayouterError;
use crate::internal::node::{
    emb_view, lemma_emb_view_update, EmbeddingHelperData, InternalNode,
};
use crate::layout::{
    children_extent, extent_total, extents_ok, fields_ok, group_anchor,
    lemma_extent_total_congruent, lemma_extent_total_nonneg, lemma_sibling_sum_empty_prefix,
    lemma_sibling_sum_member, lemma_sibling_sum_nonneg, lemma_sibling_sum_update, parents_ok,
    sibling_sum, single_root,
};
use crate::tree::{
    lemma_depth_le_index, lemma_parent_of_props, lemma_root_count_at_least_two,
    lemma_total_width_nonneg, lemma_total_width_take_bound, last_at_depth, node_width, parent_of,
    root_count, str_char_len, total_width, walk_ok, SourceTree, TreeNode,
};

verus! {

/// All fields but the two the bottom-up pass computes are kept.
pub(crate) open spec fn same_but_extents(a: InternalNode, b: InternalNode) -> bool {
    &&& b.y_order == a.y_order
    &&& b.x_center == a.x_center
    &&& b.x_extent == a.x_extent
    &&& b.text == a.text
    &&& b.is_emphasized == a.is_emphasized
    &&& b.parent == a.parent
    &&& b.ord == a.ord
}

/// Sum of the children-extent accumulators of the records before `upto`.
spec fn acc_total(items: Seq<InternalNode>, upto: int) -> int
    decreases upto,
{
    if upto <= 0 {
        0
    } else {
        acc_total(items, upto - 1) + items[upto - 1].x_extent_of_children
    }
}

proof fn lemma_acc_total_nonneg(items: Seq<InternalNode>, upto: int)
    ensures
        acc_total(items, upto) >= 0,
    decreases upto,
{
    if upto > 0 {
        lemma_acc_total_nonneg(items, upto - 1);
    }
}

proof fn lemma_acc_total_mono(items: Seq<InternalNode>, i: int, j: int)
    requires
        i <= j,
    ensures
        acc_total(items, i) <= acc_total(items, j),
    decreases j - i,
{
    if i < j {
        lemma_acc_total_mono(items, i, j - 1);
    }
}

/// Two distinct accumulators never outweigh the sum of a range that holds
/// both.
proof fn lemma_acc_total_two(items: Seq<InternalNode>, k1: int, k2: int, upto: int)
    requires
        0 <= k1 < k2 < upto,
    ensures
        items[k1].x_extent_of_children + items[k2].x_extent_of_children <= acc_total(items, upto),
    decreases upto,
{
    lemma_acc_total_nonneg(items, k1);
    lemma_acc_total_mono(items, k1 + 1, k2);
    lemma_acc_total_mono(items, k2 + 1, upto);
}

/// How updating one record shifts an accumulator sum.
proof fn lemma_acc_total_update(items: Seq<InternalNode>, k: int, v: InternalNode, upto: int)
    requires
        0 <= k < items.len(),
        upto <= items.len(),
    ensures
        acc_total(items.update(k, v), upto) == acc_total(items, upto) + if 0 <= k < upto {
            v.x_extent_of_children - items[k].x_extent_of_children
        } else {
            0int
        },
    decreases upto,
{
    if upto > 0 {
        lemma_acc_total_update(items, k, v, upto - 1);
    }
}

/// Accumulators that all still read zero sum to zero.
proof fn lemma_acc_total_zero(items: Seq<InternalNode>, upto: int)
    requires
        forall|k: int| 0 <= k < upto ==> (#[trigger] items[k]).x_extent_of_children == 0,
    ensures
        acc_total(items, upto) == 0,
    decreases upto,
{
    if upto > 0 {
        lemma_acc_total_zero(items, upto - 1);
    }
}

/// All fields but the one the top-down pass computes are kept.
pub(crate) open spec fn same_but_center(a: InternalNode, b: InternalNode) -> bool {
    &&& b.y_order == a.y_order
    &&& b.x_extent == a.x_extent
    &&& b.x_extent_of_children == a.x_extent_of_children
    &&& b.x_extent_children == a.x_extent_children
    &&& b.text == a.text
    &&& b.is_emphasized == a.is_emphasized
    &&& b.parent == a.parent
    &&& b.ord == a.ord
}

/// A record the centering pass has placed: it satisfies its centering
/// equation, and the room it occupies lies inside the root's span, which
/// starts at the coordinate origin.
pub(crate) open spec fn placed_ok(r: Seq<EmbeddedNode>, i: int) -> bool {
    &&& r[i].x_center == group_anchor(r, r[i].parent) + sibling_sum(r, r[i].parent, i) + r[i].x_extent_children / 2
    &&& r[i].x_extent_children / 2 <= r[i].x_center
    &&& r[i].x_center + (r[i].x_extent_children - r[i].x_extent_children / 2) <= r[0].x_extent_children
}

/// Halving is monotone, for the floor of the half as well as for the rest.
proof fn lemma_halves_mono(x: int, y: int)
    requires
        0 <= x <= y,
    ensures
        x / 2 <= y / 2,
        x - x / 2 <= y - y / 2,
{
    assert(x / 2 <= y / 2) by (nonlinear_arith)
        requires 0 <= x <= y
    ;
    assert(x - x / 2 <= y - y / 2) by (nonlinear_arith)
        requires 0 <= x <= y
    ;
}

/// What one entry of the latest-position-per-depth table promises: it holds
/// the position of the latest node at its depth, if any has been walked.
spec fn table_entry_ok(t: Seq<Option<usize>>, s: Seq<TreeNode>, i: int, k: int) -> bool {
    match last_at_depth(s, i, k) {
        Some(j) => t[k] == Some(j as usize),
        None => t[k] is None,
    }
}

/// The record fields the initial walk fills in.
spec fn initial_record_ok(items: Seq<InternalNode>, s: Seq<TreeNode>, j: int) -> bool {
    let nd = items[j];
    &&& nd.ord == j
    &&& nd.y_order == s[j].depth
    &&& nd.text@ == s[j].text@
    &&& nd.is_emphasized == s[j].is_emphasized
    &&& nd.x_extent == s[j].text@.len() + 1
    &&& nd.x_extent_of_children == 0
    &&& nd.x_extent_children == 0
    &&& nd.x_center == 0
    &&& match nd.parent {
        Some(p) => parent_of(s, j) == Some(p as int),
        None => parent_of(s, j) is None,
    }
}

/// The Embedder arranges the nodes of a walked tree in the plane. It is an
/// internal type used by the public [crate::VisualizeEmbedder].
pub(crate) struct Embedder;

impl Embedder {
    /// Walks the tree once and creates all records with their `ord`,
    /// `y_order`, `text`, `is_emphasized`, `x_extent` and `parent` set; the
    /// extent and center fields start at zero. Fails exactly when the walk
    /// has more than one top-level node.
    pub(crate) fn create_initial_embedding_data(tree: &SourceTree) -> (r: Result<
        EmbeddingHelperData,
        LayouterError,
    >)
        ensures
            match r {
                Ok(items) => {
                    &&& walk_ok(tree@)
                    &&& root_count(tree@) <= 1
                    &&& fields_ok(emb_view(items@), tree@)
                    &&& parents_ok(emb_view(items@))
                    &&& single_root(emb_view(items@))
                    &&& forall|i: int|
                        0 <= i < items@.len() ==> {
                            &&& (#[trigger] items@[i]).x_extent_of_children == 0
                            &&& items@[i].x_extent_children == 0
                            &&& items@[i].x_center == 0
                        }
                },
                Err(e) => {
                    &&& root_count(tree@) > 1
                    &&& e matches LayouterError::OtherError { msg }
                        && msg@ == "Currently we support only one root"@
                },
            },
    {
        let nodes = tree.nodes();
        let n = nodes.len();

        let mut roots: usize = 0;
        for i in 0..n
            invariant
                n == nodes@.len(),
                roots == root_count(nodes@.take(i as int)),
                roots <= i,
        {
            proof {
                assert(nodes@.take(i + 1).drop_last() =~= nodes@.take(i as int));
                assert(nodes@.take(i + 1).last() == nodes@[i as int]);
            }
            if nodes[i].depth == 0 {
                roots = roots + 1;
            }
        }
        proof {
            assert(nodes@.take(n as int) =~= nodes@);
        }
        if roots > 1 {
            return Err(LayouterError::from_description("Currently we support only one root"));
        }

        let mut items = EmbeddingHelperData::with_capacity(n);
        let mut table: Vec<Option<usize>> = vec![None; n];
        proof {
            assert forall|k: int| 0 <= k < n implies #[trigger] table_entry_ok(
                table@,
                nodes@,
                0,
                k,
            ) by {
                assert(table@[k] is None);
                assert(last_at_depth(nodes@, 0, k) is None);
            }
        }
        let mut i: usize = 0;
        while i < n
            invariant
                i <= n,
                n == nodes@.len(),
                walk_ok(nodes@),
                root_count(nodes@) <= 1,
                items@.len() == i,
                table@.len() == n,
                forall|k: int| 0 <= k < n ==> #[trigger] table_entry_ok(table@, nodes@, i as int, k),
                forall|j: int| 0 <= j < i ==> #[trigger] initial_record_ok(items@, nodes@, j),
            decreases n - i,
        {
            let d = nodes[i].depth;
            proof {
                lemma_depth_le_index(nodes@, i as int);
                lemma_parent_of_props(nodes@, i as int);
            }
            let parent: Option<usize> = if d == 0 {
                None
            } else {
                proof {
                    assert(table_entry_ok(table@, nodes@, i as int, d - 1));
                }
                table[d - 1]
            };
            proof {
                match parent_of(nodes@, i as int) {
                    Some(p) => {
                        assert(parent == Some(p as usize));
                    },
                    None => {
                        assert(parent is None);
                    },
                }
            }
            let text = nodes[i].text.clone();
            proof {
                lemma_total_width_take_bound(nodes@, i + 1);
                lemma_total_width_nonneg(nodes@.take(i as int));
                assert(nodes@.take(i + 1).drop_last() =~= nodes@.take(i as int));
                assert(nodes@.take(i + 1).last() == nodes@[i as int]);
                assert(node_width(nodes@[i as int]) <= total_width(nodes@));
            }
            let x_extent = str_char_len(&text) + 1;
            let item = InternalNode {
                y_order: d,
                x_center: 0,
                x_extent,
                x_extent_of_children: 0,
                x_extent_children: 0,
                text,
                is_emphasized: nodes[i].is_emphasized,
                parent,
                ord: i,
            };
            let ghost items0 = items@;
            items.insert(i, item);
            let ghost table0 = table@;
            table[d] = Some(i);
            proof {
                assert(table@ =~= table0.update(d as int, Some(i)));
                assert forall|k: int| 0 <= k < n implies #[trigger] table_entry_ok(
                    table@,
                    nodes@,
                    i + 1,
                    k,
                ) by {
                    assert(table_entry_ok(table0, nodes@, i as int, k));
                    if k == d as int {
                        assert(last_at_depth(nodes@, i + 1, k) == Some(i as int));
                        assert(table@[k] == Some(i));
                    } else {
                        assert(last_at_depth(nodes@, i + 1, k) == last_at_depth(
                            nodes@,
                            i as int,
                            k,
                        ));
                        assert(table@[k] == table0[k]);
                    }
                }
                assert(items@ == items0.push(item));
                assert(initial_record_ok(items@, nodes@, i as int));
                assert forall|j: int| 0 <= j < i + 1 implies #[trigger] initial_record_ok(
                    items@,
                    nodes@,
                    j,
                ) by {
                    if j < i {
                        assert(initial_record_ok(items0, nodes@, j));
                        assert(items@[j] == items0[j]);
                    }
                }
            }
            i = i + 1;
        }

        proof {
            let r = emb_view(items@);
            let s = nodes@;
            assert forall|i: int| 0 <= i < r.len() implies {
                &&& (#[trigger] r[i]).ord == i
                &&& r[i].y_order == s[i].depth
                &&& r[i].text@ == s[i].text@
                &&& r[i].is_emphasized == s[i].is_emphasized
                &&& r[i].x_extent == s[i].text@.len() + 1
                &&& match r[i].parent {
                    Some(p) => parent_of(s, i) == Some(p as int),
                    None => parent_of(s, i) is None,
                }
            } by {
                assert(initial_record_ok(items@, s, i));
                assert(r[i] == items@[i].to_embedded());
            }
            assert forall|i: int| 0 <= i < r.len() implies match (#[trigger] r[i]).parent {
                Some(p) => p < i && r[p as int].y_order + 1 == r[i].y_order,
                None => r[i].y_order == 0,
            } by {
                assert(initial_record_ok(items@, s, i));
                assert(r[i] == items@[i].to_embedded());
                lemma_parent_of_props(s, i);
                match items@[i].parent {
                    Some(p) => {
                        assert(initial_record_ok(items@, s, p as int));
                        assert(r[p as int] == items@[p as int].to_embedded());
                    },
                    None => {},
                }
            }
            assert forall|i: int| 1 <= i < r.len() implies (#[trigger] r[i].parent) is Some by {
                assert(initial_record_ok(items@, s, i));
                assert(r[i] == items@[i].to_embedded());
                lemma_parent_of_props(s, i);
                if items@[i].parent is None {
                    assert(s[i].depth == 0);
                    assert(s[0].depth == 0);
                    lemma_root_count_at_least_two(s, 0, i);
                }
            }
            assert forall|i: int| 0 <= i < items@.len() implies {
                &&& (#[trigger] items@[i]).x_extent_of_children == 0
                &&& items@[i].x_extent_children == 0
                &&& items@[i].x_center == 0
            } by {
                assert(initial_record_ok(items@, s, i));
            }
        }
        Ok(items)
    }

    /// Bottom-up pass: assigns every record its summed children extent
    /// (`x_extent_of_children`) and the room its subtree occupies
    /// (`x_extent_children`), from the last record backward. Since parents
    /// precede their children in the walk order, a record is only folded once
    /// the extents of all its direct children are final, as in a post-order
    /// traversal of the tree.
    pub(crate) fn apply_children_x_extents(items: &mut EmbeddingHelperData)
        requires
            parents_ok(emb_view(old(items)@)),
            forall|i: int| 0 <= i < old(items)@.len() ==> (#[trigger] old(items)@[i]).x_extent >= 1,
            forall|i: int|
                0 <= i < old(items)@.len() ==> (#[trigger] old(items)@[i]).x_extent_of_children
                    == 0,
            forall|i: int|
                0 <= i < old(items)@.len() ==> (#[trigger] old(items)@[i]).x_extent_children == 0,
            extent_total(emb_view(old(items)@), old(items)@.len() as int) <= usize::MAX,
        ensures
            final(items)@.len() == old(items)@.len(),
            forall|i: int|
                0 <= i < old(items)@.len() ==> same_but_extents(
                    old(items)@[i],
                    #[trigger] final(items)@[i],
                ),
            extents_ok(emb_view(final(items)@)),
            parents_ok(emb_view(final(items)@)),
            forall|i: int|
                0 <= i < final(items)@.len() ==> (#[trigger] final(items)@[i]).x_extent_of_children
                    == children_extent(emb_view(final(items)@), i),
    {
        let n = items.len();
        proof {
            lemma_acc_total_zero(items@, n as int);
        }
        let mut idx: usize = n;
        while idx > 0
            invariant
                idx <= n,
                n == items@.len(),
                old(items)@.len() == n,
                forall|i: int|
                    0 <= i < n ==> same_but_extents(old(items)@[i], #[trigger] items@[i]),
                parents_ok(emb_view(items@)),
                forall|i: int| 0 <= i < n ==> (#[trigger] items@[i]).x_extent >= 1,
                extent_total(emb_view(items@), n as int) <= usize::MAX,
                forall|j: int|
                    idx <= j < n ==> (#[trigger] items@[j]).x_extent_of_children == sibling_sum(
                        emb_view(items@),
                        Some(j as usize),
                        n as int,
                    ),
                forall|j: int|
                    idx <= j < n ==> (#[trigger] items@[j]).x_extent_children == if items@[
                        j
                    ].x_extent >= items@[j].x_extent_of_children {
                        items@[j].x_extent as int
                    } else {
                        items@[j].x_extent_of_children as int
                    },
                forall|k: int|
                    0 <= k < idx ==> (#[trigger] items@[k]).x_extent_of_children == sibling_sum(
                        emb_view(items@),
                        Some(k as usize),
                        n as int,
                    ) - sibling_sum(emb_view(items@), Some(k as usize), idx as int),
                forall|k: int| 0 <= k < idx ==> (#[trigger] items@[k]).x_extent_children == 0,
                acc_total(items@, idx as int) <= extent_total(emb_view(items@), n as int)
                    - extent_total(emb_view(items@), idx as int),
            decreases idx,
        {
            idx = idx - 1;
            let ghost items0 = items@;
            let ghost v0 = emb_view(items0);
            let node_xe = items.at(idx).x_extent;
            let acc = items.at(idx).x_extent_of_children;
            let parent_opt = items.at(idx).parent;
            let xec = if node_xe >= acc {
                node_xe
            } else {
                acc
            };
            proof {
                assert(v0[idx as int].parent == parent_opt);
                lemma_sibling_sum_empty_prefix(v0, idx, idx as int + 1);
                assert(items0[idx as int].x_extent_of_children == sibling_sum(
                    v0,
                    Some(idx),
                    n as int,
                ));
            }
            items.set_x_extent_children(idx, xec);
            let ghost item1 = (InternalNode { x_extent_children: xec, ..(items0[idx as int]) });
            let ghost items1 = items@;
            proof {
                lemma_emb_view_update(items0, idx as int, item1);
                lemma_acc_total_update(items0, idx as int, item1, idx as int);
            }
            if let Some(p) = parent_opt {
                proof {
                    assert(p < idx);
                    lemma_acc_total_two(items0, p as int, idx as int, idx as int + 1);
                    lemma_extent_total_nonneg(v0, idx as int);
                    assert(acc_total(items0, idx as int + 1) <= extent_total(v0, n as int)
                        - extent_total(v0, idx as int + 1));
                    assert(items1[p as int] == items0[p as int]);
                    assert(items1[p as int].x_extent_of_children + xec <= usize::MAX);
                }
                items.add_child_extent(p, xec);
                let ghost item2 = (InternalNode {
                    x_extent_of_children: (items1[p as int].x_extent_of_children + xec) as usize,
                    ..(items1[p as int])
                });
                proof {
                    lemma_emb_view_update(items1, p as int, item2);
                    assert(item2.to_embedded() == emb_view(items1)[p as int]);
                    assert(emb_view(items@) =~= emb_view(items1));
                    lemma_acc_total_update(items1, p as int, item2, idx as int);
                }
            }
            proof {
                let c = idx as int;
                let vc = emb_view(items@);
                assert(vc =~= v0.update(c, item1.to_embedded()));
                let e1 = item1.to_embedded();
                assert(e1.parent == v0[c].parent);
                assert(e1.x_extent == v0[c].x_extent);
                assert(v0[c].x_extent_children == 0);

                // The projected records changed only in record `c`'s subtree
                // extent, so parent structure and label extents carry over.
                assert forall|i: int| 0 <= i < n implies match (#[trigger] vc[i].parent) {
                    Some(q) => q < i && vc[q as int].y_order + 1 == vc[i].y_order,
                    None => vc[i].y_order == 0,
                } by {
                    assert(vc[i].parent == v0[i].parent);
                    assert(vc[i].y_order == v0[i].y_order);
                    match v0[i].parent {
                        Some(q) => {
                            assert(vc[q as int].y_order == v0[q as int].y_order);
                        },
                        None => {},
                    }
                }
                assert(parents_ok(vc));
                lemma_extent_total_congruent(vc, v0, n as int);
                lemma_extent_total_congruent(vc, v0, c);
                lemma_extent_total_congruent(vc, v0, c + 1);

                // Sibling sums for every group shift only by record `c`'s new
                // extent, and only within `c`'s own group.
                assert forall|q: usize| true implies #[trigger] sibling_sum(vc, Some(q), n as int)
                    == sibling_sum(v0, Some(q), n as int) + (if v0[c].parent == Some(q) {
                    xec as int
                } else {
                    0int
                }) by {
                    lemma_sibling_sum_update(v0, c, e1, Some(q), n as int);
                }
                assert forall|q: usize| true implies #[trigger] sibling_sum(vc, Some(q), c)
                    == sibling_sum(v0, Some(q), c) by {
                    lemma_sibling_sum_update(v0, c, e1, Some(q), c);
                }

                // Finalized region, including the record just folded.
                assert forall|j: int| c <= j < n implies (#[trigger] items@[j]).x_extent_of_children
                    == sibling_sum(vc, Some(j as usize), n as int) by {
                    if j == c {
                        assert(items@[j] == item1);
                    } else {
                        assert(items@[j] == items0[j]);
                    }
                }

                // Pending accumulators keep counting exactly the finalized
                // children.
                assert forall|k: int| 0 <= k < c implies (#[trigger] items@[k]).x_extent_of_children
                    == sibling_sum(vc, Some(k as usize), n as int) - sibling_sum(
                    vc,
                    Some(k as usize),
                    c,
                ) by {
                    assert(sibling_sum(v0, Some(k as usize), c + 1) == sibling_sum(
                        v0,
                        Some(k as usize),
                        c,
                    ) + if v0[c].parent == Some(k as usize) {
                        v0[c].x_extent_children as int
                    } else {
                        0int
                    });
                    match parent_opt {
                        Some(p) => {
                            if k == p as int {
                                assert(items@[k].x_extent_of_children == items0[k].x_extent_of_children
                                    + xec);
                            } else {
                                assert(items@[k] == items0[k]);
                            }
                        },
                        None => {
                            assert(items@[k] == items0[k]);
                        },
                    }
                }

                // The mass of all pending accumulators stays bounded by the
                // label extents of the records not yet folded.
                assert(acc_total(items0, c + 1) == acc_total(items0, c) + items0[c].x_extent_of_children);
                assert(extent_total(v0, c + 1) == extent_total(v0, c) + v0[c].x_extent);
                match parent_opt {
                    Some(_) => {
                        assert(acc_total(items@, c) == acc_total(items0, c) + xec);
                    },
                    None => {
                        assert(acc_total(items@, c) == acc_total(items0, c));
                        lemma_acc_total_nonneg(items0, c);
                    },
                }
                assert(acc_total(items@, c) <= extent_total(vc, n as int) - extent_total(vc, c));
            }
        }
        proof {
            let vf = emb_view(items@);
            assert forall|i: int| 0 <= i < vf.len() implies {
                &&& (#[trigger] vf[i].x_extent_children) == if vf[i].x_extent >= children_extent(
                    vf,
                    i,
                ) {
                    vf[i].x_extent as int
                } else {
                    children_extent(vf, i)
                }
                &&& vf[i].x_extent >= 1
            } by {
                assert(items@[i].x_extent_of_children == sibling_sum(vf, Some(i as usize), n as int));
            }
        }
    }

    /// Top-down pass for one depth layer: places every record of the layer,
    /// in walk order, half its extent to the right of the room its earlier
    /// siblings claimed, starting from the block anchored under its parent
    /// (the root layer is anchored at the coordinate origin). All shallower
    /// layers must have been placed already.
    #[verifier::loop_isolation(false)]
    #[verifier::rlimit(60)]
    pub(crate) fn x_center_layer(layer: usize, items: &mut EmbeddingHelperData)
        requires
            parents_ok(emb_view(old(items)@)),
            single_root(emb_view(old(items)@)),
            extents_ok(emb_view(old(items)@)),
            forall|i: int|
                0 <= i < old(items)@.len() ==> (#[trigger] old(items)@[i]).x_extent_of_children
                    == children_extent(emb_view(old(items)@), i),
            forall|i: int|
                0 <= i < old(items)@.len() && old(items)@[i].y_order < layer ==> placed_ok(
                    emb_view(old(items)@),
                    i,
                ),
        ensures
            final(items)@.len() == old(items)@.len(),
            forall|i: int|
                0 <= i < old(items)@.len() ==> same_but_center(
                    old(items)@[i],
                    #[trigger] final(items)@[i],
                ),
            forall|i: int|
                0 <= i < old(items)@.len() && old(items)@[i].y_order != layer ==> (
                #[trigger] final(items)@[i]).x_center == old(items)@[i].x_center,
            parents_ok(emb_view(final(items)@)),
            single_root(emb_view(final(items)@)),
            extents_ok(emb_view(final(items)@)),
            forall|i: int|
                0 <= i < final(items)@.len() ==> (#[trigger] final(items)@[i]).x_extent_of_children
                    == children_extent(emb_view(final(items)@), i),
            forall|i: int|
                0 <= i < final(items)@.len() && final(items)@[i].y_order <= layer ==> placed_ok(
                    emb_view(final(items)@),
                    i,
                ),
    {
        let n = items.len();
        let mut i: usize = 0;
        while i < n
            invariant
                i <= n,
                items@.len() == n,
                forall|k: int|
                    0 <= k < n ==> same_but_center(old(items)@[k], #[trigger] items@[k]),
                forall|k: int|
                    0 <= k < n && old(items)@[k].y_order != layer ==> (#[trigger] items@[k]).x_center
                        == old(items)@[k].x_center,
                parents_ok(emb_view(items@)),
                single_root(emb_view(items@)),
                extents_ok(emb_view(items@)),
                forall|k: int|
                    0 <= k < n ==> (#[trigger] items@[k]).x_extent_of_children == children_extent(
                        emb_view(items@),
                        k,
                    ),
                forall|k: int|
                    0 <= k < n && (items@[k].y_order < layer || (items@[k].y_order == layer && k
                        < i)) ==> placed_ok(emb_view(items@), k),
            decreases n - i,
        {
            let y = items.at(i).y_order;
            if y == layer {
                let ghost v0 = emb_view(items@);
                let parent_opt = items.at(i).parent;
                let xec_i = items.at(i).x_extent_children;
                proof {
                    assert(v0[i as int].parent == parent_opt);
                    assert(v0[i as int].x_extent_children == xec_i);
                    if parent_opt is None && i > 0 {
                        assert(v0[i as int].parent is Some);
                    }
                }
                let anchor: usize = match parent_opt {
                    None => 0,
                    Some(p) => {
                        proof {
                            assert(v0[p as int].y_order + 1 == v0[i as int].y_order);
                            assert(placed_ok(v0, p as int));
                            lemma_sibling_sum_nonneg(v0, Some(p), n as int);
                            lemma_halves_mono(
                                children_extent(v0, p as int),
                                v0[p as int].x_extent_children as int,
                            );
                        }
                        let c_p = items.at(p).x_center;
                        let half = items.at(p).x_extent_of_children / 2;
                        c_p - half
                    },
                };
                proof {
                    assert(anchor as int == group_anchor(v0, parent_opt));
                }
                let mut presum: usize = 0;
                let mut j: usize = 0;
                while j < i
                    invariant
                        j <= i,
                        presum == sibling_sum(emb_view(items@), parent_opt, j as int),
                    decreases i - j,
                {
                    proof {
                        // A parentless record is the single root at position
                        // zero, so this scan over earlier positions never
                        // runs for it.
                        if parent_opt is None {
                            assert(emb_view(items@)[i as int].parent is Some);
                            assert(false);
                        }
                    }
                    if eq_parent(items.at(j).parent, parent_opt) {
                        proof {
                            let v = emb_view(items@);
                            assert(v[j as int].parent == parent_opt);
                            lemma_sibling_sum_member(v, parent_opt, j as int, n as int);
                            match parent_opt {
                                Some(p) => {
                                    assert(sibling_sum(v, parent_opt, n as int) == children_extent(
                                        v,
                                        p as int,
                                    ));
                                    assert(children_extent(v, p as int) <= v[p as int].x_extent_children);
                                },
                                None => {},
                            }
                        }
                        presum = presum + items.at(j).x_extent_children;
                    }
                    j = j + 1;
                }
                proof {
                    assert(presum == sibling_sum(v0, parent_opt, i as int));
                    lemma_sibling_sum_member(v0, parent_opt, i as int, n as int);
                    match parent_opt {
                        Some(p) => {
                            assert(sibling_sum(v0, parent_opt, n as int) == children_extent(
                                v0,
                                p as int,
                            ));
                            assert(children_extent(v0, p as int) <= v0[p as int].x_extent_children);
                            assert(anchor + children_extent(v0, p as int) <= v0[p as int].x_center
                                + (children_extent(v0, p as int) - children_extent(v0, p as int)
                                / 2));
                            lemma_sibling_sum_nonneg(v0, Some(p), n as int);
                            lemma_halves_mono(
                                children_extent(v0, p as int),
                                v0[p as int].x_extent_children as int,
                            );
                            assert(anchor + presum + xec_i <= v0[0].x_extent_children);
                        },
                        None => {
                            assert(presum == 0);
                            assert(anchor + presum + xec_i <= v0[0].x_extent_children);
                        },
                    }
                }
                let c = anchor + presum + xec_i / 2;
                let ghost items_before = items@;
                items.set_x_center(i, c);
                let ghost item_c = (InternalNode { x_center: c, ..(items_before[i as int]) });
                proof {
                    lemma_emb_view_update(items_before, i as int, item_c);
                    let vc = emb_view(items@);
                    let e_c = item_c.to_embedded();
                    assert(vc =~= v0.update(i as int, e_c));
                    assert forall|q: Option<usize>, upto: int| 0 <= upto <= n implies #[trigger] sibling_sum(
                        vc,
                        q,
                        upto,
                    ) == sibling_sum(v0, q, upto) by {
                        lemma_sibling_sum_update(v0, i as int, e_c, q, upto);
                    }
                    assert forall|k: int| 0 <= k < n implies (#[trigger] items@[k]).x_extent_of_children
                        == children_extent(vc, k) by {
                        assert(children_extent(vc, k) == children_extent(v0, k));
                    }
                    assert forall|k: int| 0 <= k < n implies match (#[trigger] vc[k].parent) {
                        Some(q) => q < k && vc[q as int].y_order + 1 == vc[k].y_order,
                        None => vc[k].y_order == 0,
                    } by {
                        assert(vc[k].parent == v0[k].parent);
                        assert(vc[k].y_order == v0[k].y_order);
                        match v0[k].parent {
                            Some(q) => {
                                assert(vc[q as int].y_order == v0[q as int].y_order);
                            },
                            None => {},
                        }
                    }
                    assert(parents_ok(vc));
                    assert forall|k: int| 0 <= k < n implies {
                        &&& (#[trigger] vc[k].x_extent_children) == if vc[k].x_extent
                            >= children_extent(vc, k) {
                            vc[k].x_extent as int
                        } else {
                            children_extent(vc, k)
                        }
                        &&& vc[k].x_extent >= 1
                    } by {
                        assert(vc[k].x_extent == v0[k].x_extent);
                        assert(vc[k].x_extent_children == v0[k].x_extent_children);
                        assert(children_extent(vc, k) == children_extent(v0, k));
                    }
                    assert(extents_ok(vc));
                    // The new record satisfies its centering equation and
                    // stays inside the root's span.
                    assert(group_anchor(vc, vc[i as int].parent) == group_anchor(v0, parent_opt));
                    assert(placed_ok(vc, i as int));
                    // Every record placed before keeps its placement: its
                    // parent sits in a shallower layer, so its anchor did not
                    // move.
                    assert forall|k: int|
                        0 <= k < n && (vc[k].y_order < layer || (vc[k].y_order == layer && k < i
                            + 1)) implies placed_ok(vc, k) by {
                        if k != i as int {
                            assert(placed_ok(v0, k));
                            assert(vc[k] == v0[k]);
                            match v0[k].parent {
                                Some(q) => {
                                    assert(v0[q as int].y_order + 1 == v0[k].y_order);
                                    assert(v0[q as int].y_order < layer);
                                    assert(q != i);
                                    assert(vc[q as int] == v0[q as int]);
                                    assert(group_anchor(vc, v0[k].parent) == group_anchor(
                                        v0,
                                        v0[k].parent,
                                    ));
                                },
                                None => {},
                            }
                            assert(vc[0].x_extent_children == v0[0].x_extent_children);
                        }
                    }
                }
            }
            i = i + 1;
        }
    }

    /// Assigns every record its horizontal center by sweeping the depth
    /// layers from the root downward; each layer is placed relative to the
    /// already final centers of the layer above it.
    #[verifier::loop_isolation(false)]
    pub(crate) fn apply_x_center(items: &mut EmbeddingHelperData)
        requires
            parents_ok(emb_view(old(items)@)),
            single_root(emb_view(old(items)@)),
            extents_ok(emb_view(old(items)@)),
            forall|i: int|
                0 <= i < old(items)@.len() ==> (#[trigger] old(items)@[i]).x_extent_of_children
                    == children_extent(emb_view(old(items)@), i),
            forall|i: int| 0 <= i < old(items)@.len() ==> (#[trigger] old(items)@[i]).y_order <= i,
        ensures
            final(items)@.len() == old(items)@.len(),
            forall|i: int|
                0 <= i < old(items)@.len() ==> same_but_center(
                    old(items)@[i],
                    #[trigger] final(items)@[i],
                ),
            forall|i: int| 0 <= i < final(items)@.len() ==> placed_ok(emb_view(final(items)@), i),
    {
        let n = items.len();
        let mut height: usize = 0;
        let mut i: usize = 0;
        while i < n
            invariant
                i <= n,
                height == 0 || height < n,
                forall|k: int| 0 <= k < i ==> (#[trigger] items@[k]).y_order <= height,
            decreases n - i,
        {
            let y = items.at(i).y_order;
            if y > height {
                height = y;
            }
            i = i + 1;
        }
        let mut l: usize = 0;
        while l < height + 1
            invariant
                l <= height + 1,
                items@.len() == n,
                forall|k: int|
                    0 <= k < n ==> same_but_center(old(items)@[k], #[trigger] items@[k]),
                forall|k: int| 0 <= k < n ==> (#[trigger] items@[k]).y_order <= height,
                parents_ok(emb_view(items@)),
                single_root(emb_view(items@)),
                extents_ok(emb_view(items@)),
                forall|k: int|
                    0 <= k < n ==> (#[trigger] items@[k]).x_extent_of_children == children_extent(
                        emb_view(items@),
                        k,
                    ),
                forall|k: int|
                    0 <= k < n && items@[k].y_order < l ==> placed_ok(emb_view(items@), k),
            decreases height + 1 - l,
        {
            let ghost items_at_layer = items@;
            Embedder::x_center_layer(l, items);
            proof {
                assert forall|k: int| 0 <= k < n implies same_but_center(
                    old(items)@[k],
                    #[trigger] items@[k],
                ) by {
                    assert(same_but_center(items_at_layer[k], items@[k]));
                }
            }
            l = l + 1;
        }
    }

    /// Transforms the internal working records into the public embedding,
    /// preserving `ord` as the position. The `items` parameter is hereby
    /// consumed.
    pub(crate) fn transfer_result(items: EmbeddingHelperData) -> (r: Embedding)
        ensures
            r@ == emb_view(items@),
    {
        let len = items.len();
        let mut result: Embedding = Vec::with_capacity(len);
        let mut i: usize = 0;
        while i < len
            invariant
                i <= len,
                len == items@.len(),
                result@ =~= emb_view(items@).take(i as int),
            decreases len - i,
        {
            let node = items.at(i);
            let e = EmbeddedNode {
                y_order: node.y_order,
                x_center: node.x_center,
                x_extent: node.x_extent,
                x_extent_children: node.x_extent_children,
                text: node.text.clone(),
                is_emphasized: node.is_emphasized,
                parent: node.parent,
                ord: node.ord,
            };
            result.push(e);
            proof {
                assert(e == items@[i as int].to_embedded());
                assert(result@ =~= emb_view(items@).take(i as int + 1));
            }
            i = i + 1;
        }
        proof {
            assert(emb_view(items@).take(len as int) =~= emb_view(items@));
        }
        result
    }
}

/// Whether two optional parent links name the same group.
fn eq_parent(a: Option<usize>, b: Option<usize>) -> (r: bool)
    ensures
        r == (a == b),
{
    match (a, b) {
        (None, None) => true,
        (Some(x), Some(y)) => x == y,
        _ => false,
    }
}

} // verus!
