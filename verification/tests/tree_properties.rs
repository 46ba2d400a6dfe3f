use scenic::red_black_tree::{
    ChildType, Color, NodeContainer, RedBlackTree, RedBlackTreeNode, TreeCursor, TreePosition,
};

#[test]
fn empty_container_and_leaf_color() {
    let mut c = NodeContainer::new();
    assert!(c.empty());
    assert!(c.get().is_none());
    assert!(c.take().is_none());
    // an empty slot counts as black
    assert_eq!(Color::Black, RedBlackTreeNode::node_color(&None));
}

#[test]
fn empty_tree_root_is_leaf() {
    let tree = RedBlackTree::new();
    assert_eq!(0, tree.len());
    match tree.root() {
        TreeCursor::Leaf(l) => {
            let tree = l.into_tree();
            assert_eq!(0, tree.len());
        }
        TreeCursor::Node(_) => panic!("an empty tree has no root node"),
    }
}

#[test]
fn get_missing_key_hands_tree_back() {
    let tree = RedBlackTree::new();
    let tree = tree.root().unwrap_leaf().insert(10).into_tree();
    let tree = match tree.get(42) {
        Ok(_) => panic!("an unindexed key has no node"),
        Err(t) => t,
    };
    assert_eq!(1, tree.len());
    let c = tree.get(10).ok().unwrap();
    assert_eq!(10, c.key());
}

#[test]
fn delete_lone_root_empties_tree() {
    let tree = RedBlackTree::new();
    let tree = tree.root().unwrap_leaf().insert(9).into_tree();
    let c = tree.root().unwrap_node();
    let tree = c.delete();
    assert_eq!(0, tree.len());
    match tree.root() {
        TreeCursor::Leaf(_) => {}
        TreeCursor::Node(_) => panic!("the tree should be empty"),
    }
}

#[test]
fn delete_red_leaf_keeps_parent() {
    let tree = RedBlackTree::new();
    let c = tree.root().unwrap_leaf().insert(7);
    let tree = c.left_child().unwrap_leaf().insert(4).into_tree();
    // the red leaf 4 goes; 7 stays as the black root
    let c = tree.get(4).ok().unwrap();
    let tree = c.delete();
    assert_eq!(1, tree.len());
    let root = tree.root().unwrap_node();
    assert_eq!(7, root.key());
    assert_eq!(Color::Black, root.color());
}

#[test]
fn delete_spliced_child() {
    // Build root 6 (black) with black children 5 and 7, where 7 carries the
    // red leaf 8; deleting 7 splices 8 into its place, recolored black.
    let mut tree = RedBlackTree::new();
    for k in [5u64, 6, 7, 8] {
        let mut c = tree.root();
        loop {
            match c {
                TreeCursor::Node(nc) => {
                    if nc.key() > k {
                        c = nc.left_child();
                    } else {
                        c = nc.right_child();
                    }
                }
                TreeCursor::Leaf(l) => {
                    tree = l.insert(k).into_tree();
                    break;
                }
            }
        }
    }
    let tree = tree.get(7).ok().unwrap().delete();
    assert_eq!(3, tree.len());
    let root = tree.root().unwrap_node();
    assert_eq!(6, root.key());
    assert_eq!(Color::Black, root.color());
    let right = root.right_child().unwrap_node();
    assert_eq!(8, right.key());
    assert_eq!(Color::Black, right.color());
    let parent = right.parent().ok().unwrap();
    let left = parent.left_child().unwrap_node();
    assert_eq!(5, left.key());
    assert_eq!(Color::Black, left.color());
}

#[test]
fn reinsert_after_delete() {
    let tree = RedBlackTree::new();
    let c = tree.root().unwrap_leaf().insert(7);
    let tree = c.left_child().unwrap_leaf().insert(4).into_tree();
    let tree = tree.get(4).ok().unwrap().delete();
    // the handle is free again and can be indexed anew
    let root = tree.root().unwrap_node();
    let c = root.left_child().unwrap_leaf().insert(4);
    assert_eq!(4, c.key());
    assert_eq!(Color::Red, c.color());
    let tree = c.into_tree();
    assert_eq!(2, tree.len());
}

#[test]
fn swap_exchanges_only_keys() {
    // Build root 4 with children 3 and 5, then swap 3 and 5: the colors and
    // the shape stay, only the two key handles trade places.
    let tree = RedBlackTree::new();
    let c = tree.root().unwrap_leaf().insert(4);
    let c = c.left_child().unwrap_leaf().insert(3);
    let tree = c.into_tree();
    let mut tree = tree
        .root()
        .unwrap_node()
        .right_child()
        .unwrap_leaf()
        .insert(5)
        .into_tree();

    tree.swap(3, 5);

    let root = tree.root().unwrap_node();
    assert_eq!(4, root.key());
    assert_eq!(Color::Black, root.color());
    let left = root.left_child().unwrap_node();
    assert_eq!(5, left.key());
    assert_eq!(Color::Red, left.color());
    let parent = left.parent().ok().unwrap();
    let right = parent.right_child().unwrap_node();
    assert_eq!(3, right.key());
    assert_eq!(Color::Red, right.color());
    let tree = right.into_tree();
    // the index follows the handles to their new nodes
    let c = tree.get(5).ok().unwrap();
    assert_eq!(5, c.key());
}

#[test]
fn cursor_positions_follow_structure() {
    let tree = RedBlackTree::new();
    let c = tree.root().unwrap_leaf().insert(2);
    let tree = c.right_child().unwrap_leaf().insert(3).into_tree();
    // the navigation helpers on positions behave as documented
    let p = TreePosition::Child(0, ChildType::Left);
    assert!(!p.is_root());
    assert_eq!(ChildType::Left, p.child_type());
    assert_eq!(TreePosition::Child(0, ChildType::Right), p.sibling());
    assert!(TreePosition::Root.is_root());
    assert_eq!(ChildType::Right, ChildType::Left.flip());
    assert_eq!(ChildType::Left, ChildType::Right.flip());
    assert_eq!(2, tree.len());
}

#[test]
fn root_stays_black_through_growth() {
    // Root invariant on a concrete run: after every insert the root is black.
    let mut tree = RedBlackTree::new();
    for k in [5u64, 3, 4, 6, 7, 2, 1] {
        let mut c = tree.root();
        loop {
            match c {
                TreeCursor::Node(nc) => {
                    if nc.key() > k {
                        c = nc.left_child();
                    } else {
                        c = nc.right_child();
                    }
                }
                TreeCursor::Leaf(l) => {
                    tree = l.insert(k).into_tree();
                    break;
                }
            }
        }
        let root = tree.root().unwrap_node();
        assert_eq!(Color::Black, root.color());
        tree = root.into_tree();
    }
}
