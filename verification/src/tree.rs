//! The input boundary: a tree, given as its depth-first pre-order walk.
//!
//! The embedding algorithm does not own a tree data structure; it consumes
//! the walk of one. Each walk entry carries the node's depth and its already
//! extracted label text, so the walk fully determines the layout. Within a
//! valid pre-order walk the parent of a node is the nearest preceding node
//! whose depth is one less.

use vstd::prelude::*;
use vstd::string::StrSliceExecFns;

use crate::errors::LayouterError;

verus! {

/// One node of a tree, as a depth-first pre-order walk delivers it.
#[derive(Debug, Clone)]
pub struct TreeNode {
    /// Distance from the tree's conceptual root; a top-level node has depth 0.
    pub depth: usize,
    /// The node's label, produced by a stringify strategy of the caller.
    pub text: String,
    /// True when the node should be visually distinguished by the drawer.
    pub is_emphasized: bool,
}

/// The horizontal room a single label takes: one unit per character plus one
/// unit of padding.
pub open spec fn node_width(n: TreeNode) -> int {
    n.text@.len() + 1int
}

/// The depths form a depth-first pre-order walk: the first node is top-level
/// and no step descends by more than one level at a time.
pub open spec fn depths_ok(s: Seq<TreeNode>) -> bool {
    &&& (s.len() > 0 ==> s[0].depth == 0)
    &&& forall|i: int| 1 <= i < s.len() ==> #[trigger] s[i].depth <= s[i - 1].depth + 1
}

/// The summed widths of all labels in the walk.
pub open spec fn total_width(s: Seq<TreeNode>) -> int
    decreases s.len(),
{
    if s.len() == 0 {
        0
    } else {
        total_width(s.drop_last()) + node_width(s.last())
    }
}

/// A walk the embedding algorithm accepts: pre-order depths, and labels whose
/// summed width fits the machine's coordinate range.
pub open spec fn walk_ok(s: Seq<TreeNode>) -> bool {
    &&& depths_ok(s)
    &&& total_width(s) <= usize::MAX
}

/// The number of top-level nodes in the walk.
pub open spec fn root_count(s: Seq<TreeNode>) -> int
    decreases s.len(),
{
    if s.len() == 0 {
        0
    } else {
        root_count(s.drop_last()) + if s.last().depth == 0 {
            1int
        } else {
            0int
        }
    }
}

/// The most recent position before `i` whose node sits at depth `d`.
pub open spec fn last_at_depth(s: Seq<TreeNode>, i: int, d: int) -> Option<int>
    decreases i,
{
    if i <= 0 {
        None
    } else if s[i - 1].depth == d {
        Some(i - 1)
    } else {
        last_at_depth(s, i - 1, d)
    }
}

/// The parent of node `i` in the walk: the nearest preceding node one level
/// up, or `None` for a top-level node.
pub open spec fn parent_of(s: Seq<TreeNode>, i: int) -> Option<int> {
    if s[i].depth == 0 {
        None
    } else {
        last_at_depth(s, i, s[i].depth - 1)
    }
}

/// A tree, held as its validated depth-first pre-order walk.
pub struct SourceTree {
    nodes: Vec<TreeNode>,
}

impl View for SourceTree {
    type V = Seq<TreeNode>;

    closed spec fn view(&self) -> Seq<TreeNode> {
        self.nodes@
    }
}

impl SourceTree {
    #[verifier::type_invariant]
    spec fn type_inv(self) -> bool {
        walk_ok(self.nodes@)
    }

    /// Validates a walk and wraps it. Fails exactly when the depths do not
    /// form a pre-order walk or the summed label widths exceed the coordinate
    /// range, and says which of the two it found.
    pub fn from_walk(nodes: Vec<TreeNode>) -> (r: Result<SourceTree, LayouterError>)
        ensures
            match r {
                Ok(t) => walk_ok(nodes@) && t@ == nodes@,
                Err(e) => {
                    &&& !walk_ok(nodes@)
                    &&& e matches LayouterError::TreeError { msg } && msg@ == if !depths_ok(
                        nodes@,
                    ) {
                        "The given walk is not a depth-first pre-order traversal"@
                    } else {
                        "The labels of the given walk exceed the coordinate range"@
                    }
                },
            },
    {
        if !check_depths(&nodes) {
            return Err(LayouterError::from_tree_description(
                "The given walk is not a depth-first pre-order traversal",
            ));
        }
        if !check_total_width(&nodes) {
            return Err(LayouterError::from_tree_description(
                "The labels of the given walk exceed the coordinate range",
            ));
        }
        Ok(SourceTree { nodes })
    }

    /// The number of nodes.
    pub fn len(&self) -> (n: usize)
        ensures
            n == self@.len(),
    {
        self.nodes.len()
    }

    /// The walk entries, in pre-order.
    pub(crate) fn nodes(&self) -> (r: &Vec<TreeNode>)
        ensures
            r@ == self@,
            walk_ok(self@),
    {
        proof {
            use_type_invariant(self);
        }
        &self.nodes
    }
}

/// Checks that the depths form a pre-order walk.
fn check_depths(nodes: &Vec<TreeNode>) -> (b: bool)
    ensures
        b == depths_ok(nodes@),
{
    let n = nodes.len();
    if n == 0 {
        return true;
    }
    if nodes[0].depth != 0 {
        return false;
    }
    for i in 1..n
        invariant
            n == nodes@.len(),
            nodes@[0].depth == 0,
            forall|j: int| 1 <= j < i ==> #[trigger] nodes@[j].depth <= nodes@[j - 1].depth + 1,
    {
        let step_ok = nodes[i].depth <= nodes[i - 1].depth || nodes[i].depth == nodes[i - 1].depth
            + 1;
        if !step_ok {
            assert(!(nodes@[i as int].depth <= nodes@[i as int - 1].depth + 1));
            return false;
        }
    }
    true
}

/// Checks that the summed label widths fit the coordinate range.
fn check_total_width(nodes: &Vec<TreeNode>) -> (b: bool)
    ensures
        b == (total_width(nodes@) <= usize::MAX),
{
    let n = nodes.len();
    let mut total: usize = 0;
    for i in 0..n
        invariant
            n == nodes@.len(),
            total == total_width(nodes@.take(i as int)),
    {
        proof {
            assert(nodes@.take(i + 1).drop_last() =~= nodes@.take(i as int));
            assert(nodes@.take(i + 1).last() == nodes@[i as int]);
        }
        let label_chars = str_char_len(&nodes[i].text);
        let width = match label_chars.checked_add(1) {
            Some(w) => w,
            None => {
                proof {
                    lemma_total_width_take_bound(nodes@, i + 1);
                }
                return false;
            },
        };
        total = match total.checked_add(width) {
            Some(t) => t,
            None => {
                proof {
                    lemma_total_width_take_bound(nodes@, i + 1);
                }
                return false;
            },
        };
    }
    proof {
        assert(nodes@.take(n as int) =~= nodes@);
    }
    true
}

/// The number of characters in a string, which is the length of its view.
pub(crate) fn str_char_len(s: &String) -> (n: usize)
    ensures
        n == s@.len(),
{
    s.as_str().unicode_len()
}

/// Summed label widths are never negative.
pub(crate) proof fn lemma_total_width_nonneg(s: Seq<TreeNode>)
    ensures
        total_width(s) >= 0,
    decreases s.len(),
{
    if s.len() > 0 {
        lemma_total_width_nonneg(s.drop_last());
    }
}

/// In a pre-order walk a node's depth never exceeds its position.
pub(crate) proof fn lemma_depth_le_index(s: Seq<TreeNode>, i: int)
    requires
        depths_ok(s),
        0 <= i < s.len(),
    ensures
        s[i].depth <= i,
    decreases i,
{
    if i > 0 {
        lemma_depth_le_index(s, i - 1);
    }
}

/// What a successful or failed search for the latest node at depth `d` means.
pub(crate) proof fn lemma_last_at_depth_props(s: Seq<TreeNode>, i: int, d: int)
    requires
        0 <= i <= s.len(),
    ensures
        match last_at_depth(s, i, d) {
            Some(j) => 0 <= j < i && s[j].depth == d && (forall|k: int|
                j < k < i ==> (#[trigger] s[k].depth) != d),
            None => forall|k: int| 0 <= k < i ==> (#[trigger] s[k].depth) != d,
        },
    decreases i,
{
    if i > 0 && s[i - 1].depth != d {
        lemma_last_at_depth_props(s, i - 1, d);
    }
}

/// If some node before `i` sits at depth `d`, the search for the latest one
/// succeeds.
proof fn lemma_last_at_depth_some(s: Seq<TreeNode>, i: int, d: int)
    requires
        0 <= i <= s.len(),
        exists|j: int| 0 <= j < i && (#[trigger] s[j].depth) == d,
    ensures
        last_at_depth(s, i, d) is Some,
    decreases i,
{
    if i > 0 && s[i - 1].depth != d {
        lemma_last_at_depth_some(s, i - 1, d);
    }
}

/// Before any node of a pre-order walk, every shallower depth has already
/// appeared.
proof fn lemma_shallower_depth_present(s: Seq<TreeNode>, i: int, d: int)
    requires
        depths_ok(s),
        0 <= i < s.len(),
        0 <= d < s[i].depth,
    ensures
        exists|j: int| 0 <= j < i && (#[trigger] s[j].depth) == d,
    decreases i,
{
    if d == s[i - 1].depth {
        assert(0 <= i - 1 < i && s[i - 1].depth == d);
    } else {
        assert(d < s[i - 1].depth);
        lemma_shallower_depth_present(s, i - 1, d);
        let j = choose|j: int| 0 <= j < i - 1 && (#[trigger] s[j].depth) == d;
        assert(0 <= j < i && s[j].depth == d);
    }
}

/// In a pre-order walk, every non-top-level node has a parent, which comes
/// earlier and sits exactly one level up; a top-level node has none.
pub(crate) proof fn lemma_parent_of_props(s: Seq<TreeNode>, i: int)
    requires
        depths_ok(s),
        0 <= i < s.len(),
    ensures
        match parent_of(s, i) {
            Some(p) => 0 <= p < i && s[p].depth + 1 == s[i].depth,
            None => s[i].depth == 0,
        },
{
    if s[i].depth > 0 {
        lemma_shallower_depth_present(s, i, s[i].depth - 1);
        lemma_last_at_depth_some(s, i, s[i].depth - 1);
        lemma_last_at_depth_props(s, i, s[i].depth - 1);
    }
}

/// Root counting never goes negative.
pub(crate) proof fn lemma_root_count_nonneg(s: Seq<TreeNode>)
    ensures
        root_count(s) >= 0,
    decreases s.len(),
{
    if s.len() > 0 {
        lemma_root_count_nonneg(s.drop_last());
    }
}

/// One top-level node makes the root count at least one.
proof fn lemma_root_count_at_least_one(s: Seq<TreeNode>, i: int)
    requires
        0 <= i < s.len(),
        s[i].depth == 0,
    ensures
        root_count(s) >= 1,
    decreases s.len(),
{
    lemma_root_count_nonneg(s.drop_last());
    if i < s.len() - 1 {
        lemma_root_count_at_least_one(s.drop_last(), i);
    }
}

/// Two distinct top-level nodes make the root count at least two.
pub(crate) proof fn lemma_root_count_at_least_two(s: Seq<TreeNode>, i: int, j: int)
    requires
        0 <= i < j < s.len(),
        s[i].depth == 0,
        s[j].depth == 0,
    ensures
        root_count(s) >= 2,
    decreases s.len(),
{
    if j == s.len() - 1 {
        lemma_root_count_at_least_one(s.drop_last(), i);
    } else {
        lemma_root_count_at_least_two(s.drop_last(), i, j);
        lemma_root_count_nonneg(s.drop_last());
    }
}

/// Every label contributes a positive width, so a prefix never outweighs the
/// whole walk.
pub(crate) proof fn lemma_total_width_take_bound(s: Seq<TreeNode>, i: int)
    requires
        0 <= i <= s.len(),
    ensures
        total_width(s.take(i)) <= total_width(s),
    decreases s.len() - i,
{
    if i < s.len() {
        lemma_total_width_take_bound(s, i + 1);
        assert(s.take(i + 1).drop_last() =~= s.take(i));
        assert(node_width(s.take(i + 1).last()) >= 1);
    } else {
        assert(s.take(i) =~= s);
    }
}

} // verus!
