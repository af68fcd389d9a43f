//! The mathematical model of a finished embedding.
//!
//! A finished embedding is a sequence of records, one per walk entry, indexed
//! by `ord`. Its geometry is pinned by three groups of equations: the fields
//! copied from the walk ([`fields_ok`]), the bottom-up extent equations
//! ([`extents_ok`]) and the top-down centering equations ([`centers_ok`]).
//! Together they determine every record uniquely, which is proved by
//! [`lemma_embedding_deterministic`]. The no-overlap and centering guarantees
//! of the layout are proved from the same equations by [`lemma_no_overlap`]
//! and [`lemma_centered_under_parent`].

use vstd::prelude::*;

use crate::embedding::EmbeddedNode;
use crate::tree::{node_width, parent_of, total_width, TreeNode};

verus! {

/// Sum of `x_extent_children` over the records before `upto` whose parent
/// field equals `p`: the room the first children of group `p` claim.
pub open spec fn sibling_sum(r: Seq<EmbeddedNode>, p: Option<usize>, upto: int) -> int
    decreases upto,
{
    if upto <= 0 {
        0
    } else {
        sibling_sum(r, p, upto - 1) + if r[upto - 1].parent == p {
            r[upto - 1].x_extent_children as int
        } else {
            0int
        }
    }
}

/// The `x_extent_of_children` of record `i`: the summed extents of all its
/// direct children.
pub open spec fn children_extent(r: Seq<EmbeddedNode>, i: int) -> int {
    sibling_sum(r, Some(i as usize), r.len() as int)
}

/// The left edge of the block that the children of group `p` occupy: centered
/// under the parent, or the coordinate origin for the top-level group.
///
/// Halving truncates, so under an odd children extent the block sits one
/// half-unit right of the exact center; this one rounding convention is used
/// for the anchor, and each record's own extent is halved the same way.
pub open spec fn group_anchor(r: Seq<EmbeddedNode>, p: Option<usize>) -> int {
    match p {
        None => 0,
        Some(q) => r[q as int].x_center - children_extent(r, q as int) / 2,
    }
}

/// Each record's parent comes earlier in the order and one level up; only a
/// level-0 record has no parent.
pub open spec fn parents_ok(r: Seq<EmbeddedNode>) -> bool {
    forall|i: int|
        0 <= i < r.len() ==> match #[trigger] r[i].parent {
            Some(p) => p < i && r[p as int].y_order + 1 == r[i].y_order,
            None => r[i].y_order == 0,
        }
}

/// At most one record is parentless, and it is the first: the walk had a
/// single top-level node (or none at all).
pub open spec fn single_root(r: Seq<EmbeddedNode>) -> bool {
    forall|i: int| 1 <= i < r.len() ==> (#[trigger] r[i].parent) is Some
}

/// The bottom-up extent equations: every record's `x_extent_children` is the
/// larger of its own label extent and the summed extents of its children, and
/// a label extent is never zero.
pub open spec fn extents_ok(r: Seq<EmbeddedNode>) -> bool {
    forall|i: int|
        0 <= i < r.len() ==> {
            &&& (#[trigger] r[i].x_extent_children) == if r[i].x_extent >= children_extent(r, i) {
                r[i].x_extent as int
            } else {
                children_extent(r, i)
            }
            &&& r[i].x_extent >= 1
        }
}

/// The centering equation of one record: it sits half its extent to the
/// right of the room its earlier siblings claimed, inside the block anchored
/// under its parent.
pub open spec fn center_eq(r: Seq<EmbeddedNode>, i: int) -> bool {
    r[i].x_center == group_anchor(r, r[i].parent) + sibling_sum(r, r[i].parent, i)
        + r[i].x_extent_children / 2
}

/// The top-down centering equations, for every record.
pub open spec fn centers_ok(r: Seq<EmbeddedNode>) -> bool {
    forall|i: int| 0 <= i < r.len() ==> #[trigger] center_eq(r, i)
}

/// The fields the embedding copies straight from the walk: position, depth,
/// text, emphasis, label extent and the derived parent link.
pub open spec fn fields_ok(r: Seq<EmbeddedNode>, s: Seq<TreeNode>) -> bool {
    &&& r.len() == s.len()
    &&& forall|i: int|
        0 <= i < r.len() ==> {
            &&& (#[trigger] r[i]).ord == i
            &&& r[i].y_order == s[i].depth
            &&& r[i].text@ == s[i].text@
            &&& r[i].is_emphasized == s[i].is_emphasized
            &&& r[i].x_extent == s[i].text@.len() + 1
            &&& match r[i].parent {
                Some(p) => parent_of(s, i) == Some(p as int),
                None => parent_of(s, i) is None,
            }
        }
}

/// Everything the embedding algorithm guarantees of its output for the walk
/// `s`: the copied fields, the parent structure, and the extent and centering
/// equations.
pub open spec fn valid_embedding(r: Seq<EmbeddedNode>, s: Seq<TreeNode>) -> bool {
    &&& fields_ok(r, s)
    &&& parents_ok(r)
    &&& single_root(r)
    &&& extents_ok(r)
    &&& centers_ok(r)
}

/// A sibling sum is never negative.
pub(crate) proof fn lemma_sibling_sum_nonneg(r: Seq<EmbeddedNode>, p: Option<usize>, upto: int)
    ensures
        sibling_sum(r, p, upto) >= 0,
    decreases upto,
{
    if upto > 0 {
        lemma_sibling_sum_nonneg(r, p, upto - 1);
    }
}

/// A sibling sum only grows as more records are taken in.
pub(crate) proof fn lemma_sibling_sum_monotone(r: Seq<EmbeddedNode>, p: Option<usize>, i: int, j: int)
    requires
        i <= j,
    ensures
        sibling_sum(r, p, i) <= sibling_sum(r, p, j),
    decreases j - i,
{
    if i < j {
        lemma_sibling_sum_monotone(r, p, i, j - 1);
    }
}

/// A group member's own extent, on top of the room its earlier siblings
/// claimed, still fits into any sum that includes it.
pub(crate) proof fn lemma_sibling_sum_member(
    r: Seq<EmbeddedNode>,
    p: Option<usize>,
    i: int,
    upto: int,
)
    requires
        0 <= i < upto,
        r[i].parent == p,
    ensures
        sibling_sum(r, p, i) + r[i].x_extent_children <= sibling_sum(r, p, upto),
    decreases upto,
{
    lemma_sibling_sum_monotone(r, p, i + 1, upto);
}

/// Changing one record's `x_extent_children`, and nothing else a sibling sum
/// reads, shifts the sum by exactly that record's contribution.
pub(crate) proof fn lemma_sibling_sum_update(
    r: Seq<EmbeddedNode>,
    k: int,
    v: EmbeddedNode,
    p: Option<usize>,
    upto: int,
)
    requires
        0 <= k < r.len(),
        v.parent == r[k].parent,
        upto <= r.len(),
    ensures
        sibling_sum(r.update(k, v), p, upto) == sibling_sum(r, p, upto) + if 0 <= k < upto
            && r[k].parent == p {
            v.x_extent_children - r[k].x_extent_children
        } else {
            0int
        },
    decreases upto,
{
    if upto > 0 {
        lemma_sibling_sum_update(r, k, v, p, upto - 1);
    }
}

/// No record can claim room in a group whose parent it precedes: a sibling
/// sum over positions at or before the group's parent is zero.
pub(crate) proof fn lemma_sibling_sum_empty_prefix(
    r: Seq<EmbeddedNode>,
    q: usize,
    upto: int,
)
    requires
        parents_ok(r),
        upto <= q + 1,
        upto <= r.len(),
    ensures
        sibling_sum(r, Some(q), upto) == 0,
    decreases upto,
{
    if upto > 0 {
        lemma_sibling_sum_empty_prefix(r, q, upto - 1);
        if upto - 1 < r.len() && r[upto - 1].parent == Some(q) {
            assert(q < upto - 1);
        }
    }
}

/// Sum of the label extents of the records before `upto`.
pub open spec fn extent_total(r: Seq<EmbeddedNode>, upto: int) -> int
    decreases upto,
{
    if upto <= 0 {
        0
    } else {
        extent_total(r, upto - 1) + r[upto - 1].x_extent
    }
}

/// A label-extent sum is never negative.
pub(crate) proof fn lemma_extent_total_nonneg(r: Seq<EmbeddedNode>, upto: int)
    ensures
        extent_total(r, upto) >= 0,
    decreases upto,
{
    if upto > 0 {
        lemma_extent_total_nonneg(r, upto - 1);
    }
}

/// Two record sequences with the same label extents have the same
/// label-extent sums.
pub(crate) proof fn lemma_extent_total_congruent(r1: Seq<EmbeddedNode>, r2: Seq<EmbeddedNode>, upto: int)
    requires
        forall|j: int| 0 <= j < upto ==> (#[trigger] r1[j]).x_extent == r2[j].x_extent,
    ensures
        extent_total(r1, upto) == extent_total(r2, upto),
    decreases upto,
{
    if upto > 0 {
        lemma_extent_total_congruent(r1, r2, upto - 1);
    }
}

/// Records whose label extents come from the walk sum up to the walk's total
/// width.
pub(crate) proof fn lemma_extent_total_matches_walk(
    r: Seq<EmbeddedNode>,
    s: Seq<TreeNode>,
    upto: int,
)
    requires
        0 <= upto <= s.len(),
        forall|j: int| 0 <= j < upto ==> (#[trigger] r[j]).x_extent == node_width(s[j]),
    ensures
        extent_total(r, upto) == total_width(s.take(upto)),
    decreases upto,
{
    if upto > 0 {
        lemma_extent_total_matches_walk(r, s, upto - 1);
        assert(s.take(upto).drop_last() =~= s.take(upto - 1));
        assert(s.take(upto).last() == s[upto - 1]);
    }
}

/// Two records agree when every field a caller can observe is the same; the
/// texts are compared by their characters.
pub open spec fn records_match(a: EmbeddedNode, b: EmbeddedNode) -> bool {
    &&& a.y_order == b.y_order
    &&& a.x_center == b.x_center
    &&& a.x_extent == b.x_extent
    &&& a.x_extent_children == b.x_extent_children
    &&& a.text@ == b.text@
    &&& a.is_emphasized == b.is_emphasized
    &&& a.parent == b.parent
    &&& a.ord == b.ord
}

/// Two record sequences whose members agree on parents, and on extents within
/// the group `p`, have the same sibling sums for `p`.
pub(crate) proof fn lemma_sibling_sum_congruent(
    r1: Seq<EmbeddedNode>,
    r2: Seq<EmbeddedNode>,
    p: Option<usize>,
    upto: int,
)
    requires
        forall|j: int| 0 <= j < upto ==> (#[trigger] r1[j]).parent == r2[j].parent,
        forall|j: int|
            0 <= j < upto && r1[j].parent == p ==> (#[trigger] r1[j]).x_extent_children
                == r2[j].x_extent_children,
    ensures
        sibling_sum(r1, p, upto) == sibling_sum(r2, p, upto),
    decreases upto,
{
    if upto > 0 {
        lemma_sibling_sum_congruent(r1, r2, p, upto - 1);
    }
}

/// No overlap: two records that share a parent, in walk order, occupy
/// disjoint horizontal rooms — the left one ends, at the latest, where the
/// right one begins.
pub proof fn lemma_no_overlap(r: Seq<EmbeddedNode>, a: int, b: int)
    requires
        extents_ok(r),
        centers_ok(r),
        0 <= a < b < r.len(),
        r[a].parent == r[b].parent,
    ensures
        r[a].x_center + r[a].x_extent_children / 2 <= r[b].x_center - r[b].x_extent_children / 2,
{
    let p = r[a].parent;
    assert(center_eq(r, a));
    assert(center_eq(r, b));
    lemma_sibling_sum_member(r, p, a, b);
    assert(r[a].x_extent_children / 2 + r[a].x_extent_children / 2 <= r[a].x_extent_children) by (nonlinear_arith);
}

/// Centering: every record with a parent sits within half the parent's
/// summed children extent of the parent's own center.
pub proof fn lemma_centered_under_parent(r: Seq<EmbeddedNode>, i: int, p: usize)
    requires
        parents_ok(r),
        extents_ok(r),
        centers_ok(r),
        0 <= i < r.len(),
        r[i].parent == Some(p),
    ensures
        r[p as int].x_center - children_extent(r, p as int) / 2 <= r[i].x_center,
        r[i].x_center <= r[p as int].x_center + children_extent(r, p as int) / 2,
{
    let ce = children_extent(r, p as int);
    let xec = r[i].x_extent_children as int;
    assert(center_eq(r, i));
    assert(p < i);
    lemma_sibling_sum_nonneg(r, Some(p), i);
    lemma_sibling_sum_member(r, Some(p), i, r.len() as int);
    assert(r[i].x_center == (r[p as int].x_center - ce / 2) + sibling_sum(r, Some(p), i) + xec
        / 2);
    assert(xec >= r[i].x_extent >= 1);
    assert(xec - xec / 2 >= 1) by (nonlinear_arith)
        requires xec >= 1
    ;
    assert(ce - ce / 2 <= ce / 2 + 1) by (nonlinear_arith);
}

/// Ordering: a record's parent was assigned a strictly smaller `ord` and
/// sits in a strictly shallower layer.
pub proof fn lemma_parent_precedes(r: Seq<EmbeddedNode>, s: Seq<TreeNode>)
    requires
        valid_embedding(r, s),
    ensures
        forall|i: int, p: usize|
            #![trigger r[i].parent, r[p as int].ord]
            0 <= i < r.len() && r[i].parent == Some(p) ==> r[p as int].ord < r[i].ord
                && r[p as int].y_order < r[i].y_order,
{
    assert forall|i: int, p: usize|
        #![trigger r[i].parent, r[p as int].ord]
        0 <= i < r.len() && r[i].parent == Some(p) implies r[p as int].ord < r[i].ord
        && r[p as int].y_order < r[i].y_order by {
        assert(r[p as int].ord == p as int);
        assert(r[i].ord == i);
    }
}

/// The records of two valid embeddings of one walk agree on the parent link
/// at every position.
proof fn lemma_unique_parents(s: Seq<TreeNode>, r1: Seq<EmbeddedNode>, r2: Seq<EmbeddedNode>)
    requires
        valid_embedding(r1, s),
        valid_embedding(r2, s),
    ensures
        forall|j: int| 0 <= j < r1.len() ==> (#[trigger] r1[j]).parent == r2[j].parent,
{
    assert forall|j: int| 0 <= j < r1.len() implies (#[trigger] r1[j]).parent == r2[j].parent by {
        match r1[j].parent {
            Some(p1) => {
                match r2[j].parent {
                    Some(p2) => {
                        assert(parent_of(s, j) == Some(p1 as int));
                        assert(parent_of(s, j) == Some(p2 as int));
                        assert(p1 == p2);
                    },
                    None => {
                        assert(parent_of(s, j) is Some);
                        assert(parent_of(s, j) is None);
                    },
                }
            },
            None => {
                match r2[j].parent {
                    Some(p2) => {
                        assert(parent_of(s, j) is None);
                        assert(parent_of(s, j) is Some);
                    },
                    None => {},
                }
            },
        }
    }
}

/// The extent equations have one solution: from the last record backward,
/// every subtree extent is forced.
proof fn lemma_unique_extents(
    s: Seq<TreeNode>,
    r1: Seq<EmbeddedNode>,
    r2: Seq<EmbeddedNode>,
    i: int,
)
    requires
        valid_embedding(r1, s),
        valid_embedding(r2, s),
        0 <= i <= r1.len(),
    ensures
        forall|j: int|
            i <= j < r1.len() ==> (#[trigger] r1[j]).x_extent_children == r2[j].x_extent_children,
    decreases r1.len() - i,
{
    lemma_unique_parents(s, r1, r2);
    if i < r1.len() {
        lemma_unique_extents(s, r1, r2, i + 1);
        assert forall|j: int|
            0 <= j < r1.len() && r1[j].parent == Some(i as usize) implies (#[trigger] r1[j]).x_extent_children
            == r2[j].x_extent_children by {
            assert(i < j);
        }
        lemma_sibling_sum_congruent(r1, r2, Some(i as usize), r1.len() as int);
        assert(children_extent(r1, i) == children_extent(r2, i));
        assert(r1[i].x_extent == s[i].text@.len() + 1 && r2[i].x_extent == s[i].text@.len() + 1);
    }
}

/// The centering equations have one solution: from the first record onward,
/// every center is forced by the already forced centers and extents.
proof fn lemma_unique_centers(
    r1: Seq<EmbeddedNode>,
    r2: Seq<EmbeddedNode>,
    i: int,
)
    requires
        r1.len() == r2.len(),
        centers_ok(r1),
        centers_ok(r2),
        parents_ok(r1),
        0 <= i <= r1.len(),
        forall|j: int| 0 <= j < r1.len() ==> (#[trigger] r1[j]).parent == r2[j].parent,
        forall|j: int|
            0 <= j < r1.len() ==> (#[trigger] r1[j]).x_extent_children == r2[j].x_extent_children,
    ensures
        forall|j: int| 0 <= j < i ==> (#[trigger] r1[j]).x_center == r2[j].x_center,
    decreases i,
{
    if i > 0 {
        lemma_unique_centers(r1, r2, i - 1);
        let j = i - 1;
        assert(center_eq(r1, j));
        assert(center_eq(r2, j));
        lemma_sibling_sum_congruent(r1, r2, r1[j].parent, j);
        match r1[j].parent {
            Some(p) => {
                assert(p < j);
                assert(r1[p as int].x_center == r2[p as int].x_center);
                lemma_sibling_sum_congruent(r1, r2, Some(p), r1.len() as int);
                assert(group_anchor(r1, r1[j].parent) == group_anchor(r2, r2[j].parent));
            },
            None => {
                assert(group_anchor(r1, r1[j].parent) == 0);
                assert(group_anchor(r2, r2[j].parent) == 0);
            },
        }
        assert(r1[j].x_center == r2[j].x_center);
    }
}

/// Determinism: one walk has exactly one valid embedding. Two embeddings of
/// the same walk agree, record for record, in every observable field.
pub proof fn lemma_embedding_deterministic(
    s: Seq<TreeNode>,
    r1: Seq<EmbeddedNode>,
    r2: Seq<EmbeddedNode>,
)
    requires
        valid_embedding(r1, s),
        valid_embedding(r2, s),
    ensures
        r1.len() == r2.len(),
        forall|i: int| 0 <= i < r1.len() ==> records_match(#[trigger] r1[i], r2[i]),
{
    lemma_unique_parents(s, r1, r2);
    lemma_unique_extents(s, r1, r2, 0);
    lemma_unique_centers(r1, r2, r1.len() as int);
    assert forall|i: int| 0 <= i < r1.len() implies records_match(#[trigger] r1[i], r2[i]) by {
        assert(r1[i].x_extent_children == r2[i].x_extent_children);
        assert(r1[i].x_center == r2[i].x_center);
    }
}

} // verus!
