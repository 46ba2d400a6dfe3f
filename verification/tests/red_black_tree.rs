use scenic::red_black_tree::{Color, RedBlackTree, TreeCursor};

/// A representation of the "expected" shape of the tree resulting from
/// operations.
struct NodeExpectation {
    key: u64,
    left_child: Option<Box<NodeExpectation>>,
    right_child: Option<Box<NodeExpectation>>,
    color: Color,
}

/// A helper function to build a `NodeExpectation`.
fn nd(
    key: u64,
    color: Color,
    left_child: Option<Box<NodeExpectation>>,
    right_child: Option<Box<NodeExpectation>>,
) -> Option<Box<NodeExpectation>> {
    Some(Box::new(NodeExpectation {
        key,
        left_child,
        right_child,
        color,
    }))
}

/// Return the keys of the two children of the node holding `key`, walking
/// down and back up through cursors, and hand the tree back.
fn child_keys(tree: RedBlackTree, key: u64) -> (RedBlackTree, Option<u64>, Option<u64>) {
    let cursor = tree.get(key).ok().expect("key should be indexed");
    let (tree, left) = match cursor.left_child() {
        TreeCursor::Node(n) => {
            let k = n.key();
            // walking back up must land on the node we came from
            let parent = n.parent().ok().expect("child should have a parent");
            assert_eq!(key, parent.key());
            (parent.into_tree(), Some(k))
        }
        TreeCursor::Leaf(l) => (l.into_tree(), None),
    };
    let cursor = tree.get(key).ok().expect("key should be indexed");
    let (tree, right) = match cursor.right_child() {
        TreeCursor::Node(n) => {
            let k = n.key();
            let parent = n.parent().ok().expect("child should have a parent");
            assert_eq!(key, parent.key());
            (parent.into_tree(), Some(k))
        }
        TreeCursor::Leaf(l) => (l.into_tree(), None),
    };
    (tree, left, right)
}

fn color_of(tree: RedBlackTree, key: u64) -> (RedBlackTree, Color) {
    let cursor = tree.get(key).ok().expect("key should be indexed");
    let color = cursor.color();
    (cursor.into_tree(), color)
}

/// Recursively compare an expected node with the corresponding actual tree
/// node; panic if there are any differences.
fn expect_node(
    tree: RedBlackTree,
    key: u64,
    expected: &NodeExpectation,
    count: &mut usize,
) -> RedBlackTree {
    let (tree, color) = color_of(tree, key);
    assert_eq!(expected.key, key);
    assert_eq!(expected.color, color);
    *count += 1;
    let (mut tree, left, right) = child_keys(tree, key);
    match (&expected.left_child, left) {
        (Some(exp), Some(k)) => {
            tree = expect_node(tree, k, exp, count);
        }
        (None, None) => {}
        (Some(exp), None) => panic!("expected left child {}, found none", exp.key),
        (None, Some(k)) => panic!("expected no left child, found {}", k),
    }
    match (&expected.right_child, right) {
        (Some(exp), Some(k)) => {
            tree = expect_node(tree, k, exp, count);
        }
        (None, None) => {}
        (Some(exp), None) => panic!("expected right child {}, found none", exp.key),
        (None, Some(k)) => panic!("expected no right child, found {}", k),
    }
    tree
}

/// Compare the whole tree with the given `NodeExpectation`, and check that
/// the index holds exactly one entry per reachable node.
fn expect_tree(tree: RedBlackTree, expected: &Option<Box<NodeExpectation>>) -> RedBlackTree {
    let mut count: usize = 0;
    let tree = match tree.root() {
        TreeCursor::Node(n) => {
            let root_key = n.key();
            let exp = expected.as_ref().expect("expected an empty tree");
            let tree = match n.parent() {
                Ok(_) => panic!("the root has no parent"),
                Err(c) => c.into_tree(),
            };
            expect_node(tree, root_key, exp, &mut count)
        }
        TreeCursor::Leaf(l) => {
            assert!(expected.is_none(), "expected a non-empty tree");
            l.into_tree()
        }
    };
    assert_eq!(count, tree.len());
    tree
}

/// Check the red-black properties and the index bookkeeping at the node
/// holding `key`; returns the number of black nodes on the path to each
/// descendant empty slot (the same for every path).
fn check_tree_node(tree: RedBlackTree, key: u64, parent_is_red: bool, count: &mut usize) -> (RedBlackTree, usize) {
    let (tree, color) = color_of(tree, key);
    if parent_is_red {
        // a red node has only black children
        assert_eq!(Color::Black, color);
    }
    *count += 1;
    let (mut tree, left, right) = child_keys(tree, key);
    let red = color == Color::Red;
    let left_d = match left {
        Some(k) => {
            let (t, d) = check_tree_node(tree, k, red, count);
            tree = t;
            d
        }
        None => 0,
    };
    let right_d = match right {
        Some(k) => {
            let (t, d) = check_tree_node(tree, k, red, count);
            tree = t;
            d
        }
        None => 0,
    };
    // every path from a node to a descendant empty slot crosses the same
    // number of black nodes
    assert_eq!(left_d, right_d);
    if color == Color::Black {
        (tree, left_d + 1)
    } else {
        (tree, left_d)
    }
}

/// Check a tree against the red-black properties and the invariants specific
/// to this structure: the root is black, no red node has a red child, black
/// counts agree, and the index covers exactly the reachable nodes.
fn check_tree(tree: RedBlackTree) -> RedBlackTree {
    let mut count: usize = 0;
    let tree = match tree.root() {
        TreeCursor::Node(n) => {
            let root_key = n.key();
            assert_eq!(Color::Black, n.color());
            let (tree, _) = check_tree_node(n.into_tree(), root_key, false, &mut count);
            tree
        }
        TreeCursor::Leaf(l) => l.into_tree(),
    };
    assert_eq!(count, tree.len());
    tree
}

/// Collect keys in in-order sequence.
fn inorder_keys(tree: RedBlackTree, key: u64, out: &mut Vec<u64>) -> RedBlackTree {
    let (mut tree, left, right) = child_keys(tree, key);
    if let Some(k) = left {
        tree = inorder_keys(tree, k, out);
    }
    out.push(key);
    if let Some(k) = right {
        tree = inorder_keys(tree, k, out);
    }
    tree
}

/// Insert a key by descending from the root, going left when the node's key
/// is greater than the new one, as the caller-driven contract expects.
fn bst_insert(tree: RedBlackTree, val: u64) -> RedBlackTree {
    let mut c = tree.root();
    loop {
        match c {
            TreeCursor::Node(nc) => {
                if nc.key() > val {
                    c = nc.left_child();
                } else {
                    c = nc.right_child();
                }
            }
            TreeCursor::Leaf(leaf) => {
                return leaf.insert(val).into_tree();
            }
        }
    }
}

#[test]
fn test_root_insert() {
    let tree: RedBlackTree = RedBlackTree::new();
    let leaf = tree.root().unwrap_leaf();

    let tree = leaf.insert(4).into_tree();

    expect_tree(tree, &nd(4, Color::Black, None, None));
}

#[test]
fn test_insert_children() {
    let tree: RedBlackTree = RedBlackTree::new();
    let leaf = tree.root().unwrap_leaf();
    let root = leaf.insert(4);
    let result = root.into_tree().root().unwrap_node().left_child().unwrap_leaf().insert(3);
    assert_eq!(3, result.key());
    assert_eq!(Color::Red, result.color());

    let tree = result.into_tree();
    let root = tree.root().unwrap_node();
    let five = root.right_child().unwrap_leaf().insert(5);
    assert_eq!(Color::Red, five.color());
    let parent = five.parent().ok().unwrap();
    assert_eq!(4, parent.key());

    expect_tree(
        parent.into_tree(),
        &nd(
            4,
            Color::Black,
            nd(3, Color::Red, None, None),
            nd(5, Color::Red, None, None),
        ),
    );
}

#[test]
fn test_insert_case_three() {
    // Insert under a red parent with a red uncle: recoloring only.
    let tree: RedBlackTree = RedBlackTree::new();
    let root = tree.root().unwrap_leaf().insert(5);
    let tree = root.into_tree().root().unwrap_node().right_child().unwrap_leaf().insert(6).into_tree();
    let left = tree.root().unwrap_node().left_child().unwrap_leaf().insert(4);
    let tree = left.left_child().unwrap_leaf().insert(3).into_tree();

    expect_tree(
        tree,
        &nd(
            5,
            Color::Black,
            nd(4, Color::Black, nd(3, Color::Red, None, None), None),
            nd(6, Color::Black, None, None),
        ),
    );
}

#[test]
fn test_insert_rotate_right() {
    let tree: RedBlackTree = RedBlackTree::new();
    let c = tree.root().unwrap_leaf().insert(5);
    let c = c.left_child().unwrap_leaf().insert(4);
    let tree = c.left_child().unwrap_leaf().insert(3).into_tree();

    expect_tree(
        tree,
        &nd(
            4,
            Color::Black,
            nd(3, Color::Red, None, None),
            nd(5, Color::Red, None, None),
        ),
    );
}

#[test]
fn test_insert_rotate_left() {
    let tree: RedBlackTree = RedBlackTree::new();
    let c = tree.root().unwrap_leaf().insert(5);
    let c = c.right_child().unwrap_leaf().insert(6);
    let tree = c.right_child().unwrap_leaf().insert(7).into_tree();

    expect_tree(
        tree,
        &nd(
            6,
            Color::Black,
            nd(5, Color::Red, None, None),
            nd(7, Color::Red, None, None),
        ),
    );
}

#[test]
fn test_two_rotation_insert() {
    let tree: RedBlackTree = RedBlackTree::new();
    let c = tree.root().unwrap_leaf().insert(5);
    let c = c.left_child().unwrap_leaf().insert(3);
    let tree = c.right_child().unwrap_leaf().insert(4).into_tree();

    expect_tree(
        tree,
        &nd(
            4,
            Color::Black,
            nd(3, Color::Red, None, None),
            nd(5, Color::Red, None, None),
        ),
    );
}

#[test]
fn test_two_rotation_insert_reverse() {
    let tree: RedBlackTree = RedBlackTree::new();
    let c = tree.root().unwrap_leaf().insert(5);
    let c = c.right_child().unwrap_leaf().insert(7);
    let tree = c.left_child().unwrap_leaf().insert(6).into_tree();

    expect_tree(
        tree,
        &nd(
            6,
            Color::Black,
            nd(5, Color::Red, None, None),
            nd(7, Color::Red, None, None),
        ),
    );
}

#[test]
fn stress_test() {
    let vals: Vec<u64> = vec![
        93, 11, 3, 31, 1, 78, 16, 14, 2, 58, 19, 44, 68, 97, 41, 15, 81, 49, 79, 40, 52, 98, 91,
        23, 95, 67, 30, 43, 62, 25, 96, 6, 100, 72, 37, 42, 38, 61, 74, 99, 39, 84, 50, 55, 90,
        64, 75, 69, 45, 54, 26, 56, 27, 4, 18, 13, 88, 66, 51, 32,
    ];

    let mut t = RedBlackTree::new();
    for val in &vals {
        t = bst_insert(t, *val);
    }

    t = check_tree(t);

    // the in-order traversal must be sorted
    let root_key = match t.root() {
        TreeCursor::Node(n) => {
            let k = n.key();
            t = n.into_tree();
            k
        }
        TreeCursor::Leaf(_) => panic!("tree should not be empty"),
    };
    let mut keys: Vec<u64> = Vec::new();
    let t = inorder_keys(t, root_key, &mut keys);
    assert_eq!(vals.len(), keys.len());
    for w in keys.windows(2) {
        assert!(w[0] < w[1]);
    }
    assert_eq!(vals.len(), t.len());
}

#[test]
fn swap_test() {
    let tree: RedBlackTree = RedBlackTree::new();

    let c = tree.root().unwrap_leaf().insert(5);
    let mut tree = c.right_child().unwrap_leaf().insert(6).into_tree();

    tree.swap(5, 6);

    expect_tree(tree, &nd(6, Color::Black, None, nd(5, Color::Red, None, None)));
}

#[test]
fn simple_delete() {
    let tree: RedBlackTree = RedBlackTree::new();
    let c = tree.root().unwrap_leaf().insert(7);
    let tree = c.left_child().unwrap_leaf().insert(4).into_tree();

    let tree = expect_tree(tree, &nd(7, Color::Black, nd(4, Color::Red, None, None), None));

    let c = tree.root().unwrap_node();
    let tree = c.delete();

    expect_tree(tree, &nd(4, Color::Black, None, None));
}
