use syntree_layout::{
    Drawer, EmbeddedNode, LayouterError, SourceTree, TreeNode, Visualize, VisualizeEmbedder,
};

#[derive(Debug)]
struct MyNodeData(i32);

impl Visualize for MyNodeData {
    fn visualize(&self) -> String {
        format!("{}", self.0)
    }
}

/// One walk entry for a node, its text produced by the node data's
/// `Visualize` implementation.
fn vnode(depth: usize, value: i32) -> TreeNode {
    let data = MyNodeData(value);
    TreeNode { depth, text: data.visualize(), is_emphasized: data.emphasize() }
}

fn node(depth: usize, text: &str, is_emphasized: bool) -> TreeNode {
    TreeNode { depth, text: text.to_string(), is_emphasized }
}

fn embed(walk: Vec<TreeNode>) -> Vec<EmbeddedNode> {
    let tree = SourceTree::from_walk(walk).unwrap();
    VisualizeEmbedder::embed(&tree).unwrap()
}

/// The summed `x_extent_children` of the direct children of `parent_ord`.
fn x_extent_of_children(embedding: &[EmbeddedNode], parent_ord: usize) -> usize {
    embedding
        .iter()
        .filter(|e| e.parent == Some(parent_ord))
        .map(|e| e.x_extent_children)
        .sum()
}

#[test]
fn empty_tree() {
    let embedding = embed(vec![]);
    assert!(embedding.is_empty());
}

#[test]
fn tree_with_single_node() {
    let embedding = embed(vec![vnode(0, 0)]);
    assert_eq!(1, embedding.len());

    {
        let e = &embedding[0];
        assert_eq!("0".to_string(), e.text);
        assert_eq!(0, e.y_order);
        assert_eq!(1, e.x_center);
        assert_eq!(2, e.x_extent);
        assert_eq!(2, e.x_extent_children);
    }
}

#[test]
fn more_complex_tree() {
    //      0
    //     / \
    //    1   2
    //   / \
    //  3   4
    let embedding = embed(vec![vnode(0, 0), vnode(1, 1), vnode(2, 3), vnode(2, 4), vnode(1, 2)]);

    assert!(!embedding.is_empty());
    assert_eq!(5, embedding.len());

    {
        let e = &embedding.iter().find(|e| e.text == "0").unwrap();
        assert_eq!(0, e.ord);
        assert_eq!(0, e.y_order);
        assert_eq!(3, e.x_center);
        assert_eq!(2, e.x_extent);
        assert_eq!(6, e.x_extent_children);
    }
    {
        let e = &embedding.iter().find(|e| e.text == "1").unwrap();
        assert_eq!(1, e.ord);
        assert_eq!(1, e.y_order);
        assert_eq!(2, e.x_center);
        assert_eq!(2, e.x_extent);
        assert_eq!(4, e.x_extent_children);
    }
    {
        let e = &embedding.iter().find(|e| e.text == "2").unwrap();
        assert_eq!(4, e.ord);
        assert_eq!(1, e.y_order);
        assert_eq!(5, e.x_center);
        assert_eq!(2, e.x_extent);
        assert_eq!(2, e.x_extent_children);
    }
    {
        let e = &embedding.iter().find(|e| e.text == "3").unwrap();
        assert_eq!(2, e.ord);
        assert_eq!(2, e.y_order);
        assert_eq!(1, e.x_center);
        assert_eq!(2, e.x_extent);
        assert_eq!(2, e.x_extent_children);
    }
    {
        let e = &embedding.iter().find(|e| e.text == "4").unwrap();
        assert_eq!(3, e.ord);
        assert_eq!(2, e.y_order);
        assert_eq!(3, e.x_center);
        assert_eq!(2, e.x_extent);
        assert_eq!(2, e.x_extent_children);
    }
}

#[test]
fn parents_and_emphasis_carry_over() {
    let embedding = embed(vec![
        node(0, "root", false),
        node(1, "left", true),
        node(1, "right", false),
    ]);
    assert_eq!(None, embedding[0].parent);
    assert_eq!(Some(0), embedding[1].parent);
    assert_eq!(Some(0), embedding[2].parent);
    assert!(!embedding[0].is_emphasized);
    assert!(embedding[1].is_emphasized);
    assert!(!embedding[2].is_emphasized);
}

#[test]
fn label_extent_counts_characters_plus_padding() {
    let embedding = embed(vec![node(0, "abcde", false), node(1, "x", false)]);
    // The root's label needs six units, more than its single child's two, so
    // the root keeps its own extent and the child is centered beneath it.
    assert_eq!(6, embedding[0].x_extent);
    assert_eq!(6, embedding[0].x_extent_children);
    assert_eq!(3, embedding[0].x_center);
    assert_eq!(2, embedding[1].x_extent);
    assert_eq!(2, embedding[1].x_extent_children);
    assert_eq!(3, embedding[1].x_center);
}

#[test]
fn multiple_roots_are_rejected() {
    let tree = SourceTree::from_walk(vec![node(0, "a", false), node(0, "b", false)]).unwrap();
    let result = VisualizeEmbedder::embed(&tree);
    match result {
        Err(LayouterError::OtherError { msg }) => {
            assert_eq!("Currently we support only one root", msg);
        }
        _ => panic!("expected the multiple-roots error"),
    }
}

#[test]
fn invalid_walk_is_rejected() {
    // A node two levels deeper than its predecessor cannot come from a
    // depth-first walk.
    let result = SourceTree::from_walk(vec![node(0, "a", false), node(2, "b", false)]);
    assert!(matches!(result, Err(LayouterError::TreeError { .. })));
    // A walk that does not start at the top level is no pre-order walk.
    let result = SourceTree::from_walk(vec![node(1, "a", false)]);
    assert!(matches!(result, Err(LayouterError::TreeError { .. })));
}

#[test]
fn error_from_description_keeps_the_message() {
    let e = LayouterError::from_description("boo");
    assert_eq!("boo", e.message().as_str());
}

#[test]
fn embedding_is_deterministic() {
    let walk = || {
        vec![
            node(0, "0", false),
            node(1, "1", true),
            node(2, "3", false),
            node(2, "4", false),
            node(1, "2", false),
        ]
    };
    let first = embed(walk());
    let second = embed(walk());
    assert_eq!(first.len(), second.len());
    for (a, b) in first.iter().zip(second.iter()) {
        assert_eq!(a.ord, b.ord);
        assert_eq!(a.y_order, b.y_order);
        assert_eq!(a.x_center, b.x_center);
        assert_eq!(a.x_extent, b.x_extent);
        assert_eq!(a.x_extent_children, b.x_extent_children);
        assert_eq!(a.text, b.text);
        assert_eq!(a.is_emphasized, b.is_emphasized);
        assert_eq!(a.parent, b.parent);
    }
}

#[test]
fn siblings_do_not_overlap() {
    let embedding = embed(vec![
        node(0, "root", false),
        node(1, "alpha", false),
        node(2, "a", false),
        node(2, "bb", false),
        node(1, "beta", false),
        node(2, "c", false),
    ]);
    for a in &embedding {
        for b in &embedding {
            if a.ord < b.ord && a.parent == b.parent {
                assert!(
                    a.x_center + a.x_extent_children / 2
                        <= b.x_center - b.x_extent_children / 2,
                    "records {} and {} overlap",
                    a.ord,
                    b.ord
                );
            }
        }
    }
}

#[test]
fn children_are_centered_under_their_parent() {
    let embedding = embed(vec![
        node(0, "r", false),
        node(1, "aa", false),
        node(2, "deep", false),
        node(1, "b", false),
        node(1, "c", false),
    ]);
    for e in &embedding {
        if let Some(p) = e.parent {
            let parent = &embedding[p];
            let spread = x_extent_of_children(&embedding, p);
            assert!(parent.x_center - spread / 2 <= e.x_center);
            assert!(e.x_center <= parent.x_center + spread / 2);
        }
    }
}

#[test]
fn visualize_defaults_apply() {
    let data = MyNodeData(42);
    assert_eq!("42", data.visualize());
    assert_eq!("42", data.visualize_with_source("irrelevant"));
    assert!(!data.emphasize());
}

struct CountingDrawer {
    drawn: std::cell::Cell<usize>,
}

impl Drawer for CountingDrawer {
    fn draw(&self, _file_name: &str, embedding: &[EmbeddedNode]) -> Result<(), LayouterError> {
        self.drawn.set(embedding.len());
        Ok(())
    }
}

#[test]
fn a_drawer_consumes_the_embedding() {
    let embedding = embed(vec![vnode(0, 0), vnode(1, 1)]);
    let drawer = CountingDrawer { drawn: std::cell::Cell::new(0) };
    drawer.draw("out.svg", &embedding).unwrap();
    assert_eq!(2, drawer.drawn.get());
}

#[test]
fn parents_precede_their_children() {
    let embedding = embed(vec![
        node(0, "r", false),
        node(1, "a", false),
        node(2, "b", false),
        node(3, "c", false),
        node(1, "d", false),
    ]);
    for (i, e) in embedding.iter().enumerate() {
        assert_eq!(i, e.ord);
        if let Some(p) = e.parent {
            assert!(embedding[p].ord < e.ord);
            assert!(embedding[p].y_order < e.y_order);
        }
    }
}
