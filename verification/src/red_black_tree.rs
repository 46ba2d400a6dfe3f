//! An indexed, order-preserving red-black tree driven by caller-side descent.
//!
//! The tree performs no key comparisons of its own: a caller walks down with
//! cursors, chooses a branch at every node, and inserts at the empty slot it
//! reaches.  An auxiliary hash index maps every key handle to the arena slot
//! of the node holding it, so a caller can jump straight to a node, delete it,
//! or exchange the keys of two nodes without touching the tree shape.
//!
//! Nodes live in a grow-only arena (`Vec<NodeContainer>`); parent and child
//! links are arena slot numbers, so a rotation rewrites a few links and moves
//! no node, and the index stays valid across rebalancing.

use std::collections::HashMap;
use vstd::pervasive::VecAdditionalExecFns;
use vstd::prelude::*;

verus! {

broadcast use vstd::std_specs::hash::group_hash_axioms;

#[derive(Clone, Copy, PartialEq, Eq, Structural, Debug)]
pub enum Color {
    Red,
    Black,
}

#[derive(Clone, Copy, PartialEq, Eq, Structural, Debug)]
pub enum ChildType {
    Left,
    Right,
}

impl ChildType {
    pub open spec fn spec_flip(self) -> ChildType {
        match self {
            ChildType::Left => ChildType::Right,
            ChildType::Right => ChildType::Left,
        }
    }

    /// Return the opposite side.
    #[verifier::when_used_as_spec(spec_flip)]
    pub fn flip(self) -> (r: ChildType)
        ensures
            r == self.spec_flip(),
    {
        match self {
            ChildType::Left => ChildType::Right,
            ChildType::Right => ChildType::Left,
        }
    }
}

/// Where a node is attached: the tree's root slot, or one side of a parent
/// node, named by the parent's arena slot.
#[derive(Clone, Copy, PartialEq, Eq, Structural, Debug)]
pub enum TreePosition {
    Root,
    Child(usize, ChildType),
}

impl TreePosition {
    pub open spec fn spec_is_root(&self) -> bool {
        self is Root
    }

    #[verifier::when_used_as_spec(spec_is_root)]
    pub fn is_root(&self) -> (r: bool)
        ensures
            r == self.spec_is_root(),
    {
        matches!(self, TreePosition::Root)
    }

    /// The side of the parent this position names.
    pub fn child_type(&self) -> (r: ChildType)
        requires
            !(self is Root),
        ensures
            *self matches TreePosition::Child(_, ct) && r == ct,
    {
        match self {
            TreePosition::Child(_, ct) => *ct,
            TreePosition::Root => unreached(),
        }
    }

    /// The position of the other child of the same parent.
    pub fn sibling(&self) -> (r: TreePosition)
        requires
            !(self is Root),
        ensures
            *self matches TreePosition::Child(p, ct) && r == TreePosition::Child(
                p,
                ct.spec_flip(),
            ),
    {
        match self {
            TreePosition::Child(p, ct) => TreePosition::Child(*p, ct.flip()),
            TreePosition::Root => unreached(),
        }
    }
}

/// A tree node.  Children and parent are arena slot numbers; the key handle
/// is an opaque caller-owned token.  The ghost `black_height` witnesses the
/// equal-black-count property of every path below this node.
#[derive(Clone, Copy)]
pub struct RedBlackTreeNode {
    pub key: u64,
    pub color: Color,
    pub position: TreePosition,
    pub left_child: Option<usize>,
    pub right_child: Option<usize>,
    pub black_height: Ghost<nat>,
}

impl RedBlackTreeNode {
    pub open spec fn spec_child(&self, ct: ChildType) -> Option<usize> {
        match ct {
            ChildType::Left => self.left_child,
            ChildType::Right => self.right_child,
        }
    }

    /// The slot of the child on the given side, if occupied.
    #[verifier::when_used_as_spec(spec_child)]
    pub fn child(&self, ct: ChildType) -> (r: Option<usize>)
        ensures
            r == self.spec_child(ct),
    {
        match ct {
            ChildType::Left => self.left_child,
            ChildType::Right => self.right_child,
        }
    }

    pub open spec fn with_position(self, pos: TreePosition) -> RedBlackTreeNode {
        RedBlackTreeNode { position: pos, ..self }
    }

    pub open spec fn with_child(self, ct: ChildType, c: Option<usize>) -> RedBlackTreeNode {
        match ct {
            ChildType::Left => RedBlackTreeNode { left_child: c, ..self },
            ChildType::Right => RedBlackTreeNode { right_child: c, ..self },
        }
    }

    /// Replace the child link on the given side.
    pub fn set_child(&mut self, ct: ChildType, c: Option<usize>)
        ensures
            *final(self) == old(self).with_child(ct, c),
    {
        match ct {
            ChildType::Left => self.left_child = c,
            ChildType::Right => self.right_child = c,
        }
    }

    pub open spec fn spec_node_color(node: &Option<RedBlackTreeNode>) -> Color {
        match node {
            Some(n) => n.color,
            None => Color::Black,
        }
    }

    /// The color of an optional node: an empty slot counts as black.
    #[verifier::when_used_as_spec(spec_node_color)]
    pub fn node_color(node: &Option<RedBlackTreeNode>) -> (c: Color)
        ensures
            c == RedBlackTreeNode::spec_node_color(node),
    {
        match node {
            Some(n) => n.color,
            None => Color::Black,
        }
    }
}

/// One arena slot, holding a node or nothing.
#[derive(Clone, Copy)]
pub struct NodeContainer {
    pub value: Option<RedBlackTreeNode>,
}

impl NodeContainer {
    /// Create a new empty container.
    pub fn new() -> (r: NodeContainer)
        ensures
            r.value is None,
    {
        NodeContainer { value: None }
    }

    /// The node in this container, if any.
    pub fn get(&self) -> (r: Option<RedBlackTreeNode>)
        ensures
            r == self.value,
    {
        self.value
    }

    /// Returns true if this container is empty.
    pub fn empty(&self) -> (r: bool)
        ensures
            r == (self.value is None),
    {
        self.value.is_none()
    }

    /// Empties this container and returns its (optional) value.
    pub fn take(&mut self) -> (r: Option<RedBlackTreeNode>)
        ensures
            r == old(self).value,
            final(self).value is None,
    {
        let r = self.value;
        self.value = None;
        r
    }
}

/// A structure that is both ordered and indexed by key handle: a red-black
/// tree over an arena of slots, plus a hash index from key handle to slot.
pub struct RedBlackTree {
    pub nodes: Vec<NodeContainer>,
    pub root: Option<usize>,
    pub index: HashMap<u64, usize>,
}

impl RedBlackTree {
    pub open spec fn slot(self, i: int) -> Option<RedBlackTreeNode> {
        self.nodes@[i].value
    }

    pub open spec fn occupied(self, i: int) -> bool {
        0 <= i < self.nodes@.len() && self.slot(i) is Some
    }

    pub open spec fn node(self, i: int) -> RedBlackTreeNode {
        self.slot(i).unwrap()
    }

    /// Color seen through an optional child link; empty is black.
    pub open spec fn color_of(self, c: Option<usize>) -> Color {
        match c {
            Some(i) => self.node(i as int).color,
            None => Color::Black,
        }
    }

    /// Black-height seen through an optional child link; empty slots have
    /// black-height zero.
    pub open spec fn bh_of(self, c: Option<usize>) -> nat {
        match c {
            Some(i) => self.node(i as int).black_height@,
            None => 0,
        }
    }

    /// Link consistency at one occupied slot: each child's recorded position
    /// names this slot and side, and this node's recorded position names a
    /// parent (or the root slot) that links back to it.
    /// `pos` names side `ct` of the parent in slot `p`.
    #[verifier::inline]
    pub open spec fn pos_is(pos: TreePosition, p: int, ct: ChildType) -> bool {
        pos matches TreePosition::Child(pp, s) && pp == p && s == ct
    }

    pub open spec fn links_ok_at(self, i: int) -> bool {
        let n = self.node(i);
        &&& (n.left_child matches Some(l) ==> self.occupied(l as int) && RedBlackTree::pos_is(
            self.node(l as int).position,
            i,
            ChildType::Left,
        ))
        &&& (n.right_child matches Some(r) ==> self.occupied(r as int) && RedBlackTree::pos_is(
            self.node(r as int).position,
            i,
            ChildType::Right,
        ))
        &&& (match n.position {
            TreePosition::Root => self.root matches Some(rr) && rr == i,
            TreePosition::Child(p, ct) => self.occupied(p as int) && (self.node(
                p as int,
            ).spec_child(ct) matches Some(cc) && cc == i),
        })
    }

    pub open spec fn links_ok(self) -> bool {
        &&& (match self.root {
            Some(r) => self.occupied(r as int) && self.node(r as int).position is Root,
            None => true,
        })
        &&& (forall|i: int| self.occupied(i) ==> #[trigger] self.links_ok_at(i))
    }

    /// The index and the occupied slots are in bijection: every occupied slot
    /// is indexed under its key at its own slot number, and every index entry
    /// names an occupied slot holding that key.
    pub open spec fn index_ok(self) -> bool {
        &&& (forall|i: int| #[trigger] self.occupied(i) ==> self.index@.contains_key(
            self.node(i).key,
        ) && self.index@[self.node(i).key] == i)
        &&& (forall|k: u64| #[trigger] self.index@.contains_key(k) ==> self.occupied(
            self.index@[k] as int,
        ) && self.node(self.index@[k] as int).key == k)
    }

    /// A red node has no red child.
    pub open spec fn colors_ok_at(self, i: int) -> bool {
        self.node(i).color is Red ==> self.color_of(self.node(i).left_child) is Black
            && self.color_of(self.node(i).right_child) is Black
    }

    pub open spec fn no_red_red(self) -> bool {
        forall|i: int| #[trigger] self.occupied(i) ==> self.colors_ok_at(i)
    }

    pub open spec fn root_black(self) -> bool {
        self.root matches Some(r) ==> self.node(r as int).color is Black
    }

    /// The black-height witness is consistent at one occupied slot: both
    /// child subtrees carry the same black-height, and this node adds one to
    /// it exactly when it is black.  Inductively this is the classic
    /// equal-black-count-on-every-path property.
    pub open spec fn bh_ok_at(self, i: int) -> bool {
        let n = self.node(i);
        &&& self.bh_of(n.left_child) == self.bh_of(n.right_child)
        &&& n.black_height@ == self.bh_of(n.left_child) + (if n.color is Black {
            1int
        } else {
            0int
        })
    }

    pub open spec fn bh_ok(self) -> bool {
        forall|i: int| #[trigger] self.occupied(i) ==> self.bh_ok_at(i)
    }

    /// Full well-formedness: link and position consistency, index
    /// completeness and soundness, and the red-black coloring rules.
    pub open spec fn wf(self) -> bool {
        &&& self.links_ok()
        &&& self.index_ok()
        &&& self.root_black()
        &&& self.no_red_red()
        &&& self.bh_ok()
    }

    /// Construct an empty tree.
    pub fn new() -> (tree: RedBlackTree)
        ensures
            tree.wf(),
            tree.index@ == Map::<u64, usize>::empty(),
            tree.root is None,
            tree.nodes@.len() == 0,
    {
        RedBlackTree { nodes: Vec::new(), root: None, index: HashMap::new() }
    }

    fn read_node(&self, i: usize) -> (n: RedBlackTreeNode)
        requires
            self.occupied(i as int),
        ensures
            n == self.node(i as int),
    {
        self.nodes[i].value.unwrap()
    }

    fn write_node(&mut self, i: usize, n: RedBlackTreeNode)
        requires
            i < old(self).nodes@.len(),
        ensures
            final(self).nodes@ == old(self).nodes@.update(
                i as int,
                (NodeContainer { value: Some(n) }),
            ),
            final(self).root == old(self).root,
            final(self).index == old(self).index,
    {
        self.nodes.set(i, NodeContainer { value: Some(n) });
    }

    fn clear_node(&mut self, i: usize)
        requires
            i < old(self).nodes@.len(),
        ensures
            final(self).nodes@ == old(self).nodes@.update(i as int, (NodeContainer { value: None })),
            final(self).root == old(self).root,
            final(self).index == old(self).index,
    {
        self.nodes.set(i, NodeContainer { value: None });
    }

    /// The number of nodes in the tree (equal to the number of index entries).
    pub fn len(&self) -> (n: usize)
        ensures
            n == self.index@.len(),
    {
        self.index.len()
    }

    /// Returns the root of the tree, as a node cursor if the root slot is
    /// occupied and as a leaf cursor otherwise.  The cursor takes the tree
    /// over; it is handed back by `into_tree` or by the mutating operations.
    pub fn root(self) -> (r: TreeCursor)
        requires
            self.wf(),
        ensures
            r.wf(),
            r.tree() == self,
            match self.root {
                Some(rt) => r matches TreeCursor::Node(nc) && nc.node == rt,
                None => r matches TreeCursor::Leaf(lc) && lc.position is Root,
            },
    {
        match self.root {
            Some(rt) => TreeCursor::Node(NodeCursor { tree: self, node: rt }),
            None => TreeCursor::Leaf(LeafCursor { tree: self, position: TreePosition::Root }),
        }
    }

    /// Returns a `NodeCursor` for the node holding the given key handle, in
    /// constant time through the index.  If the key is not indexed, the tree
    /// itself is handed back unchanged.
    pub fn get(self, key: u64) -> (r: Result<NodeCursor, RedBlackTree>)
        requires
            self.wf(),
        ensures
            match r {
                Ok(c) => {
                    &&& self.index@.contains_key(key)
                    &&& c.tree == self
                    &&& c.node == self.index@[key]
                    &&& c.wf()
                    &&& c.spec_key() == key
                },
                Err(t) => t == self && !self.index@.contains_key(key),
            },
    {
        let slot_opt = match self.index.get(&key) {
            Some(s) => Some(*s),
            None => None,
        };
        match slot_opt {
            Some(slot) => Ok(NodeCursor { tree: self, node: slot }),
            None => Err(self),
        }
    }

    /// Swap the key handles of the two indexed nodes, leaving colors,
    /// positions and the tree shape untouched, and re-point the two index
    /// entries at their new nodes.
    #[verifier::rlimit(50)]
    pub fn swap(&mut self, key1: u64, key2: u64)
        requires
            old(self).wf(),
            old(self).index@.contains_key(key1),
            old(self).index@.contains_key(key2),
            key1 != key2,
        ensures
            final(self).wf(),
            final(self).index@ == old(self).index@.insert(
                key1,
                old(self).index@[key2],
            ).insert(key2, old(self).index@[key1]),
            final(self).root == old(self).root,
            final(self).nodes@.len() == old(self).nodes@.len(),
            forall|i: int| old(self).occupied(i) == final(self).occupied(i),
            forall|i: int|
                final(self).occupied(i) && i != old(self).index@[key1] && i != old(
                    self,
                ).index@[key2] ==> final(self).node(i) == old(self).node(i),
            final(self).node(old(self).index@[key1] as int) == (RedBlackTreeNode {
                key: key2,
                ..old(self).node(old(self).index@[key1] as int)
            }),
            final(self).node(old(self).index@[key2] as int) == (RedBlackTreeNode {
                key: key1,
                ..old(self).node(old(self).index@[key2] as int)
            }),
            final(self).inorder() == old(self).inorder().map_values(
                |k: u64| RedBlackTree::transpose_key(key1, key2, k),
            ),
    {
        let i = *self.index.get(&key1).unwrap();
        let j = *self.index.get(&key2).unwrap();
        let mut node1 = self.read_node(i);
        let mut node2 = self.read_node(j);
        let k = node1.key;
        node1.key = node2.key;
        node2.key = k;
        self.write_node(i, node1);
        self.write_node(j, node2);
        self.index.insert(key1, j);
        self.index.insert(key2, i);
        proof {
            let t0 = *old(self);
            let t1 = *self;
            assert(t0.node(i as int).key == key1 && t0.node(j as int).key == key2);
            assert(i != j);
            assert(t1.index@ =~= t0.index@.insert(key1, j).insert(key2, i));
            RedBlackTree::lemma_swap_wf(t0, t1, i, j, key1, key2);
            assert forall|m: int| t1.occupied(m) implies t1.node(m).key
                == RedBlackTree::transpose_key(key1, key2, t0.node(m).key) by {
                assert(t0.occupied(m));
                if m != i as int && m != j as int {
                    assert(t0.node(m).key != key1 && t0.node(m).key != key2);
                }
            }
            RedBlackTree::lemma_inorder_transposed(t0, t1, key1, key2, t0.root);
            assert(t1.inorder() =~= t0.inorder().map_values(
                |k: u64| RedBlackTree::transpose_key(key1, key2, k),
            ));
        }
    }

    /// Exchanging the keys of two distinct nodes, with the two index entries
    /// Link consistency only reads positions and child links: it carries over
    /// to a tree whose occupied slots all keep those fields.
    proof fn lemma_links_unchanged(t0: RedBlackTree, t1: RedBlackTree)
        requires
            t0.links_ok(),
            t1.nodes@.len() == t0.nodes@.len(),
            t1.root == t0.root,
            forall|m: int| t0.occupied(m) == t1.occupied(m),
            forall|m: int|
                #[trigger] t1.occupied(m) ==> t1.node(m).position == t0.node(m).position
                    && t1.node(m).left_child == t0.node(m).left_child && t1.node(m).right_child
                    == t0.node(m).right_child,
        ensures
            t1.links_ok(),
    {
        assert forall|m: int| t1.occupied(m) implies t1.links_ok_at(m) by {
            assert(t0.occupied(m));
            assert(t0.links_ok_at(m));
        }
    }

    /// The red-red rule only reads colors and child links: it carries over to
    /// a tree whose occupied slots all keep those fields.
    proof fn lemma_colors_unchanged(t0: RedBlackTree, t1: RedBlackTree)
        requires
            t0.no_red_red(),
            t0.links_ok(),
            t1.nodes@.len() == t0.nodes@.len(),
            forall|m: int| t0.occupied(m) == t1.occupied(m),
            forall|m: int|
                #[trigger] t1.occupied(m) ==> t1.node(m).color == t0.node(m).color && t1.node(
                    m,
                ).left_child == t0.node(m).left_child && t1.node(m).right_child == t0.node(
                    m,
                ).right_child,
        ensures
            t1.no_red_red(),
    {
        assert forall|m: int| t1.occupied(m) implies t1.colors_ok_at(m) by {
            assert(t0.occupied(m));
            assert(t0.colors_ok_at(m));
            assert(t0.links_ok_at(m));
        }
    }

    /// The black-height witness only reads colors, heights and child links:
    /// it carries over to a tree whose occupied slots all keep those fields.
    proof fn lemma_bh_unchanged(t0: RedBlackTree, t1: RedBlackTree)
        requires
            t0.bh_ok(),
            t0.links_ok(),
            t1.nodes@.len() == t0.nodes@.len(),
            forall|m: int| t0.occupied(m) == t1.occupied(m),
            forall|m: int|
                #[trigger] t1.occupied(m) ==> t1.node(m).color == t0.node(m).color && t1.node(
                    m,
                ).black_height == t0.node(m).black_height && t1.node(m).left_child == t0.node(
                    m,
                ).left_child && t1.node(m).right_child == t0.node(m).right_child,
        ensures
            t1.bh_ok(),
    {
        assert forall|m: int| t1.occupied(m) implies t1.bh_ok_at(m) by {
            assert(t0.occupied(m));
            assert(t0.bh_ok_at(m));
            assert(t0.links_ok_at(m));
        }
    }

    /// The index bijection only reads keys and occupancy: it carries over to
    /// a tree with the same index map whose occupied slots all keep their
    /// keys.
    proof fn lemma_index_unchanged(t0: RedBlackTree, t1: RedBlackTree)
        requires
            t0.index_ok(),
            t1.nodes@.len() == t0.nodes@.len(),
            t1.index@ == t0.index@,
            forall|m: int| t0.occupied(m) == t1.occupied(m),
            forall|m: int| #[trigger] t1.occupied(m) ==> t1.node(m).key == t0.node(m).key,
        ensures
            t1.index_ok(),
    {
        assert forall|m: int| t1.occupied(m) implies t1.index@.contains_key(t1.node(m).key)
            && t1.index@[t1.node(m).key] == m by {
            assert(t0.occupied(m));
        }
        assert forall|k: u64| t1.index@.contains_key(k) implies t1.occupied(t1.index@[k] as int)
            && t1.node(t1.index@[k] as int).key == k by {
            assert(t0.index@.contains_key(k));
        }
    }

    /// Removing one node together with its index entry keeps the index and
    /// the occupied slots in bijection.
    proof fn lemma_index_remove(t0: RedBlackTree, t1: RedBlackTree, x: usize)
        requires
            t0.index_ok(),
            t0.occupied(x as int),
            t1.index@ == t0.index@.remove(t0.node(x as int).key),
            t1.nodes@.len() == t0.nodes@.len(),
            forall|m: int| t1.occupied(m) <==> (t0.occupied(m) && m != x),
            forall|m: int| #[trigger] t1.occupied(m) ==> t1.node(m).key == t0.node(m).key,
        ensures
            t1.index_ok(),
    {
        assert forall|m: int| t1.occupied(m) implies t1.index@.contains_key(t1.node(m).key)
            && t1.index@[t1.node(m).key] == m by {
            assert(t0.occupied(m));
            assert(t0.node(m).key != t0.node(x as int).key);
        }
        assert forall|k: u64| t1.index@.contains_key(k) implies t1.occupied(t1.index@[k] as int)
            && t1.node(t1.index@[k] as int).key == k by {
            assert(t0.index@.contains_key(k));
        }
    }

    /// Exchanging the keys of two distinct nodes, with the two index entries
    /// re-pointed accordingly, preserves every well-formedness clause.
    proof fn lemma_swap_wf(
        t0: RedBlackTree,
        t1: RedBlackTree,
        i: usize,
        j: usize,
        key1: u64,
        key2: u64,
    )
        requires
            t0.wf(),
            t0.index@.contains_key(key1),
            t0.index@[key1] == i,
            t0.index@.contains_key(key2),
            t0.index@[key2] == j,
            t0.node(i as int).key == key1,
            t0.node(j as int).key == key2,
            key1 != key2,
            t0.occupied(i as int),
            t0.occupied(j as int),
            t1.nodes@ == t0.nodes@.update(
                i as int,
                (NodeContainer {
                    value: Some(RedBlackTreeNode { key: key2, ..t0.node(i as int) }),
                }),
            ).update(
                j as int,
                (NodeContainer {
                    value: Some(RedBlackTreeNode { key: key1, ..t0.node(j as int) }),
                }),
            ),
            t1.root == t0.root,
            t1.index@ == t0.index@.insert(key1, j).insert(key2, i),
        ensures
            t1.links_ok(),
            t1.no_red_red(),
            t1.bh_ok(),
            t1.root_black(),
            t1.nodes@.len() == t0.nodes@.len(),
            forall|m: int| t0.occupied(m) == t1.occupied(m),
            forall|m: int|
                t1.occupied(m) && m != i && m != j ==> t1.node(m) == t0.node(m),
            t1.node(i as int) == (RedBlackTreeNode { key: key2, ..t0.node(i as int) }),
            t1.node(j as int) == (RedBlackTreeNode { key: key1, ..t0.node(j as int) }),
    {
        assert(i != j);
        assert(forall|m: int|
            0 <= m < t0.nodes@.len() && m != i && m != j ==> t1.slot(m) == t0.slot(m));
        assert(t1.nodes@.len() == t0.nodes@.len());
        assert(forall|m: int| t1.occupied(m) == t0.occupied(m));
        assert(t1.node(i as int) == (RedBlackTreeNode { key: key2, ..t0.node(i as int) }));
        assert(t1.node(j as int) == (RedBlackTreeNode { key: key1, ..t0.node(j as int) }));
        RedBlackTree::lemma_links_unchanged(t0, t1);
        RedBlackTree::lemma_colors_unchanged(t0, t1);
        RedBlackTree::lemma_bh_unchanged(t0, t1);
    }

    /// The rewiring a rotation performs keeps every link consistent: the
    /// promoted child takes the rotated node's place, the rotated node
    /// becomes its child, the displaced inner subtree re-attaches, and every
    /// other slot is untouched.
    proof fn lemma_rotate_links(t0: RedBlackTree, t1: RedBlackTree, n: usize, direction: ChildType)
        requires
            t0.links_ok(),
            t0.occupied(n as int),
            t0.node(n as int).spec_child(direction.spec_flip()) is Some,
            ({
                let c = t0.node(n as int).spec_child(direction.spec_flip()).unwrap();
                let qo = t0.node(c as int).spec_child(direction);
                let po = t0.node(n as int).position;
                &&& c != n
                &&& (qo matches Some(q) ==> q != n && q != c)
                &&& (po matches TreePosition::Child(p, _) ==> p != n && p != c && (qo matches Some(
                    q,
                ) ==> p != q))
                &&& t1.nodes@.len() == t0.nodes@.len()
                &&& (forall|m: int| t1.occupied(m) == t0.occupied(m))
                &&& t1.root == (if po is Root {
                    Some(c)
                } else {
                    t0.root
                })
                &&& (forall|m: int|
                    t1.occupied(m) && m != n && m != c && !(qo matches Some(q) && q == m) && !(
                    po matches TreePosition::Child(p, _) && p == m) ==> t1.node(m) == t0.node(m))
                &&& t1.node(n as int) == t0.node(n as int).with_child(
                    direction.spec_flip(),
                    qo,
                ).with_position(TreePosition::Child(c, direction))
                &&& t1.node(c as int) == t0.node(c as int).with_child(
                    direction,
                    Some(n),
                ).with_position(po)
                &&& (qo matches Some(q) ==> t1.node(q as int) == t0.node(q as int).with_position(
                    TreePosition::Child(n, direction.spec_flip()),
                ))
                &&& (po matches TreePosition::Child(p, ct) ==> t1.node(p as int) == t0.node(
                    p as int,
                ).with_child(ct, Some(c)))
            }),
        ensures
            t1.links_ok(),
    {
        let ni = n as int;
        let c = t0.node(ni).spec_child(direction.spec_flip()).unwrap();
        let ci = c as int;
        let qo = t0.node(ci).spec_child(direction);
        let po = t0.node(ni).position;
        assert(t0.links_ok_at(ni));
        assert(t0.links_ok_at(ci));
        match qo {
            Some(q) => {
                assert(t0.links_ok_at(q as int));
            },
            None => {},
        }
        match po {
            TreePosition::Child(p, _) => {
                assert(t0.links_ok_at(p as int));
            },
            TreePosition::Root => {},
        }
        assert(t1.links_ok_at(ni));
        assert(t1.links_ok_at(ci));
        match qo {
            Some(q) => {
                assert(t1.links_ok_at(q as int));
            },
            None => {},
        }
        match po {
            TreePosition::Child(p, _) => {
                assert(t1.links_ok_at(p as int));
            },
            TreePosition::Root => {},
        }
        assert forall|m: int|
            t1.occupied(m) && m != ni && m != ci && !(qo matches Some(q) && q == m) && !(
            po matches TreePosition::Child(p, _) && p == m) implies t1.links_ok_at(m) by {
            assert(t0.occupied(m));
            assert(t0.links_ok_at(m));
            match t0.node(m).left_child {
                Some(l) => {
                    assert(t0.links_ok_at(l as int));
                },
                None => {},
            }
            match t0.node(m).right_child {
                Some(r) => {
                    assert(t0.links_ok_at(r as int));
                },
                None => {},
            }
            match t0.node(m).position {
                TreePosition::Child(pm, _) => {
                    assert(t0.links_ok_at(pm as int));
                },
                TreePosition::Root => {},
            }
        }
        assert forall|m: int| t1.occupied(m) implies t1.links_ok_at(m) by {}
    }

    /// Rotate the node in slot `n` in the given direction: its child on the
    /// side opposite the direction takes its place, `n` becomes that child's
    /// child on the rotation side, and the displaced inner subtree re-attaches
    /// to `n`.  Keys, colors, occupancy and the index are untouched; only the
    /// links and recorded positions of the (up to) four affected slots change.
    #[verifier::rlimit(100)]
    fn rotate(&mut self, n: usize, direction: ChildType) -> (c: usize)
        requires
            old(self).links_ok(),
            old(self).occupied(n as int),
            old(self).node(n as int).spec_child(direction.spec_flip()) is Some,
            ({
                let c0 = old(self).node(n as int).spec_child(direction.spec_flip()).unwrap();
                &&& c0 != n
                &&& (old(self).node(c0 as int).spec_child(direction) matches Some(q) ==> q != n
                    && q != c0)
                &&& (old(self).node(n as int).position matches TreePosition::Child(p, _) ==> p != n
                    && p != c0 && (old(self).node(c0 as int).spec_child(direction) matches Some(q)
                    ==> p != q))
            }),
        ensures
            c == old(self).node(n as int).spec_child(direction.spec_flip()).unwrap(),
            final(self).links_ok(),
            final(self).index == old(self).index,
            final(self).nodes@.len() == old(self).nodes@.len(),
            final(self).root == (if old(self).node(n as int).position is Root {
                Some(c)
            } else {
                old(self).root
            }),
            forall|m: int| final(self).occupied(m) == old(self).occupied(m),
            forall|m: int|
                final(self).occupied(m) && m != n && m != c && !(old(self).node(
                    c as int,
                ).spec_child(direction) matches Some(q) && q == m) && !(old(self).node(
                    n as int,
                ).position matches TreePosition::Child(p, _) && p == m) ==> final(self).node(m)
                    == old(self).node(m),
            final(self).node(n as int) == old(self).node(n as int).with_child(
                direction.spec_flip(),
                old(self).node(c as int).spec_child(direction),
            ).with_position(TreePosition::Child(c, direction)),
            final(self).node(c as int) == old(self).node(c as int).with_child(
                direction,
                Some(n),
            ).with_position(old(self).node(n as int).position),
            (old(self).node(c as int).spec_child(direction) matches Some(q) ==> final(self).node(
                q as int,
            ) == old(self).node(q as int).with_position(
                TreePosition::Child(n, direction.spec_flip()),
            )),
            (old(self).node(n as int).position matches TreePosition::Child(p, ct) ==> final(self)
                .node(p as int) == old(self).node(p as int).with_child(ct, Some(c))),
            final(self).nodes@ == RedBlackTree::rotate_pair(
                old(self).nodes@,
                old(self).root,
                n,
                direction,
            ).0,
            final(self).root == RedBlackTree::rotate_pair(
                old(self).nodes@,
                old(self).root,
                n,
                direction,
            ).1,
    {
        proof {
            assert(self.links_ok_at(n as int));
        }
        let n_node = self.read_node(n);
        let df = direction.flip();
        let c = match n_node.child(df) {
            Some(c) => c,
            None => unreached(),
        };
        proof {
            assert(self.links_ok_at(c as int));
        }
        let c_node = self.read_node(c);
        let q_opt = c_node.child(direction);
        let old_pos = n_node.position;

        let mut new_n = n_node;
        new_n.position = TreePosition::Child(c, direction);
        new_n.set_child(df, q_opt);
        self.write_node(n, new_n);

        let mut new_c = c_node;
        new_c.position = old_pos;
        new_c.set_child(direction, Some(n));
        self.write_node(c, new_c);

        if let Some(q) = q_opt {
            let mut q_node = self.read_node(q);
            q_node.position = TreePosition::Child(n, df);
            self.write_node(q, q_node);
        }

        match old_pos {
            TreePosition::Root => {
                self.root = Some(c);
            },
            TreePosition::Child(p, ct) => {
                proof {
                    assert(old(self).links_ok_at(p as int));
                }
                let mut p_node = self.read_node(p);
                p_node.set_child(ct, Some(c));
                self.write_node(p, p_node);
            },
        }

        proof {
            let t0 = *old(self);
            let t1 = *self;
            assert(forall|m: int| t1.occupied(m) == t0.occupied(m));
            RedBlackTree::lemma_rotate_links(t0, t1, n, direction);
            assert(t1.nodes@ == RedBlackTree::rotate_pair(t0.nodes@, t0.root, n, direction).0);
            assert(t1.root == RedBlackTree::rotate_pair(t0.nodes@, t0.root, n, direction).1);
        }
        c
    }

    /// The number of red nodes in a prefix of the arena; the repair walk
    /// recolors a red pair black (and one black node red) each time it moves
    /// up, so this measure bounds it.
    pub closed spec fn count_red_seq(s: Seq<NodeContainer>) -> nat
        decreases s.len(),
    {
        if s.len() == 0 {
            0
        } else {
            RedBlackTree::count_red_seq(s.drop_last()) + RedBlackTree::red_weight(s.last())
        }
    }

    pub open spec fn red_weight(c: NodeContainer) -> nat {
        match c.value {
            Some(n) => if n.color is Red {
                1nat
            } else {
                0nat
            },
            None => 0nat,
        }
    }

    pub open spec fn count_red(self) -> nat {
        RedBlackTree::count_red_seq(self.nodes@)
    }

    proof fn lemma_count_red_update(s: Seq<NodeContainer>, i: int, v: NodeContainer)
        requires
            0 <= i < s.len(),
        ensures
            RedBlackTree::count_red_seq(s.update(i, v)) == RedBlackTree::count_red_seq(s)
                - RedBlackTree::red_weight(s[i]) + RedBlackTree::red_weight(v),
        decreases s.len(),
    {
        if i == s.len() - 1 {
            assert(s.update(i, v).drop_last() =~= s.drop_last());
        } else {
            assert(s.update(i, v).drop_last() =~= s.drop_last().update(i, v));
            RedBlackTree::lemma_count_red_update(s.drop_last(), i, v);
        }
    }

    /// The red-red rule at slot `i`, except that a red child equal to the
    /// slot under repair is tolerated.
    pub open spec fn red_ok_except_at(self, i: int, x: int) -> bool {
        self.node(i).color is Red ==> {
            &&& (self.node(i).left_child matches Some(l) ==> (self.node(l as int).color is Red
                ==> l == x))
            &&& (self.node(i).right_child matches Some(r) ==> (self.node(r as int).color is Red
                ==> r == x))
        }
    }

    /// What holds between an insertion (or one upward recoloring step) and
    /// the repair of the slot `x`: everything of well-formedness, except that
    /// the red node at `x` may sit under a red parent or at the root.
    pub open spec fn repair_inv(self, x: int) -> bool {
        &&& self.links_ok()
        &&& self.index_ok()
        &&& self.bh_ok()
        &&& self.occupied(x)
        &&& self.node(x).color is Red
        &&& self.color_of(self.node(x).left_child) is Black
        &&& self.color_of(self.node(x).right_child) is Black
        &&& (self.root matches Some(r) ==> r == x || self.node(r as int).color is Black)
        &&& (forall|i: int| #[trigger] self.occupied(i) ==> self.red_ok_except_at(i, x))
    }

    /// The node stored in a raw arena sequence.
    pub open spec fn seq_node(s: Seq<NodeContainer>, i: int) -> RedBlackTreeNode {
        s[i].value.unwrap()
    }

    /// The arena and root slot a rotation at `n` produces, exactly as
    /// `rotate` rewires them: the child opposite the direction takes `n`'s
    /// place, `n` becomes its child, the displaced inner subtree re-attaches
    /// to `n`, and the old parent (or the root slot) points at the promoted
    /// child.
    pub open spec fn rotate_pair(
        n0: Seq<NodeContainer>,
        r0: Option<usize>,
        n: usize,
        direction: ChildType,
    ) -> (Seq<NodeContainer>, Option<usize>) {
        let nn = RedBlackTree::seq_node(n0, n as int);
        let c = nn.spec_child(direction.spec_flip()).unwrap();
        let cn = RedBlackTree::seq_node(n0, c as int);
        let qo = cn.spec_child(direction);
        let po = nn.position;
        let s1 = n0.update(
            n as int,
            (NodeContainer {
                value: Some(
                    nn.with_child(direction.spec_flip(), qo).with_position(
                        TreePosition::Child(c, direction),
                    ),
                ),
            }),
        );
        let s2 = s1.update(
            c as int,
            (NodeContainer { value: Some(cn.with_child(direction, Some(n)).with_position(po)) }),
        );
        let s3 = match qo {
            Some(q) => s2.update(
                q as int,
                (NodeContainer {
                    value: Some(
                        RedBlackTree::seq_node(n0, q as int).with_position(
                            TreePosition::Child(n, direction.spec_flip()),
                        ),
                    ),
                }),
            ),
            None => s2,
        };
        match po {
            TreePosition::Root => (s3, Some(c)),
            TreePosition::Child(p2, ct2) => (
                s3.update(
                    p2 as int,
                    (NodeContainer {
                        value: Some(
                            RedBlackTree::seq_node(n0, p2 as int).with_child(ct2, Some(c)),
                        ),
                    }),
                ),
                r0,
            ),
        }
    }

    /// The arena and root the terminal repair step produces: one rotation at
    /// the grandparent `g` away from the red pair whose upper node is `top`,
    /// after which `top` turns black taking `g`'s black level and `g` turns
    /// red keeping the level below it.
    pub open spec fn case_four_pair(
        n0: Seq<NodeContainer>,
        r0: Option<usize>,
        top: usize,
        g: usize,
        ct: ChildType,
    ) -> (Seq<NodeContainer>, Option<usize>) {
        let s1 = RedBlackTree::rotate_pair(n0, r0, g, ct.spec_flip());
        let n2 = s1.0.update(
            top as int,
            (NodeContainer {
                value: Some(
                    RedBlackTreeNode {
                        color: Color::Black,
                        black_height: RedBlackTree::seq_node(n0, g as int).black_height,
                        ..RedBlackTree::seq_node(s1.0, top as int)
                    },
                ),
            }),
        );
        let n3 = n2.update(
            g as int,
            (NodeContainer {
                value: Some(
                    RedBlackTreeNode {
                        color: Color::Red,
                        black_height: RedBlackTree::seq_node(n0, top as int).black_height,
                        ..RedBlackTree::seq_node(n2, g as int)
                    },
                ),
            }),
        );
        (n3, s1.1)
    }

    /// What the repair walk starting at the red node in slot `x` does to the
    /// arena and the root slot, case by case: a red root turns black and
    /// nothing else moves; below a black parent nothing changes at all;
    /// under a black (or absent) uncle one or two rotations and a recoloring
    /// finish the walk with the exact result named here.  Under a red uncle
    /// the walk recolors and continues at the grandparent; that case is
    /// covered by the well-formedness and frame clauses alone.
    pub open spec fn repair_outcome(
        n0: Seq<NodeContainer>,
        r0: Option<usize>,
        x: usize,
        n1: Seq<NodeContainer>,
        r1: Option<usize>,
    ) -> bool {
        let xn = RedBlackTree::seq_node(n0, x as int);
        match xn.position {
            TreePosition::Root => n1 == n0.update(
                x as int,
                (NodeContainer {
                    value: Some(
                        RedBlackTreeNode {
                            color: Color::Black,
                            black_height: Ghost(xn.black_height@ + 1),
                            ..xn
                        },
                    ),
                }),
            ) && r1 == r0,
            TreePosition::Child(p, ctx) => {
                let pn = RedBlackTree::seq_node(n0, p as int);
                if pn.color is Black {
                    n1 == n0 && r1 == r0
                } else {
                    match pn.position {
                        TreePosition::Root => true,
                        TreePosition::Child(g, ctp) => {
                            let gn = RedBlackTree::seq_node(n0, g as int);
                            let uncle_red = match gn.spec_child(ctp.spec_flip()) {
                                Some(u) => RedBlackTree::seq_node(n0, u as int).color is Red,
                                None => false,
                            };
                            if uncle_red {
                                true
                            } else if ctx == ctp {
                                let pr = RedBlackTree::case_four_pair(n0, r0, p, g, ctp);
                                n1 == pr.0 && r1 == pr.1
                            } else {
                                let s1 = RedBlackTree::rotate_pair(n0, r0, p, ctp);
                                let pr = RedBlackTree::case_four_pair(s1.0, s1.1, x, g, ctp);
                                n1 == pr.0 && r1 == pr.1
                            }
                        },
                    }
                }
            },
        }
    }

    /// A measure that strictly shrinks from any node to its children in a
    /// tree whose coloring and black-height witnesses are consistent: twice
    /// the black-height, plus two for a red node and one for a black one.
    pub open spec fn slot_rank(self, c: Option<usize>) -> int {
        match c {
            Some(i) => 2 * (self.node(i as int).black_height@ as int) + (if self.node(
                i as int,
            ).color is Red {
                2int
            } else {
                1int
            }),
            None => 0,
        }
    }

    /// The in-order key sequence of the subtree hanging from the given child
    /// link, in a well-formed tree.
    pub open spec fn inorder_from(self, c: Option<usize>) -> Seq<u64>
        decreases self.slot_rank(c),
        when self.links_ok() && self.no_red_red() && self.bh_ok() && (c matches Some(i)
            ==> self.occupied(i as int))
        via Self::inorder_from_decreases
    {
        match c {
            None => Seq::empty(),
            Some(i) => self.inorder_from(self.node(i as int).left_child) + seq![
                self.node(i as int).key,
            ] + self.inorder_from(self.node(i as int).right_child),
        }
    }

    #[via_fn]
    proof fn inorder_from_decreases(self, c: Option<usize>) {
        match c {
            Some(i) => {
                assert(self.links_ok_at(i as int));
                assert(self.bh_ok_at(i as int));
                assert(self.colors_ok_at(i as int));
            },
            None => {},
        }
    }

    /// The in-order key sequence of the whole tree.
    pub open spec fn inorder(self) -> Seq<u64> {
        self.inorder_from(self.root)
    }

    /// The exchange of two key handles, as a function on single keys.
    pub open spec fn transpose_key(key1: u64, key2: u64, k: u64) -> u64 {
        if k == key1 {
            key2
        } else if k == key2 {
            key1
        } else {
            k
        }
    }

    /// In two equally-shaped, equally-colored well-formed trees whose keys
    /// differ by the exchange of two handles, the in-order sequences differ
    /// by that exchange applied pointwise: the two handles trade places in
    /// the sequence and every other key keeps its position.
    proof fn lemma_inorder_transposed(
        t0: RedBlackTree,
        t1: RedBlackTree,
        key1: u64,
        key2: u64,
        c: Option<usize>,
    )
        requires
            t0.links_ok(),
            t0.no_red_red(),
            t0.bh_ok(),
            t1.links_ok(),
            t1.no_red_red(),
            t1.bh_ok(),
            t1.nodes@.len() == t0.nodes@.len(),
            forall|m: int| t1.occupied(m) == t0.occupied(m),
            (c matches Some(i) ==> t0.occupied(i as int)),
            forall|m: int|
                #[trigger] t1.occupied(m) ==> t1.node(m).left_child == t0.node(m).left_child
                    && t1.node(m).right_child == t0.node(m).right_child && t1.node(m).color
                    == t0.node(m).color && t1.node(m).black_height == t0.node(m).black_height,
            forall|m: int|
                #[trigger] t1.occupied(m) ==> t1.node(m).key == RedBlackTree::transpose_key(
                    key1,
                    key2,
                    t0.node(m).key,
                ),
        ensures
            t1.inorder_from(c) == t0.inorder_from(c).map_values(
                |k: u64| RedBlackTree::transpose_key(key1, key2, k),
            ),
        decreases t0.slot_rank(c),
    {
        match c {
            None => {
                assert(t1.inorder_from(c) =~= t0.inorder_from(c).map_values(
                    |k: u64| RedBlackTree::transpose_key(key1, key2, k),
                ));
            },
            Some(i) => {
                let ii = i as int;
                assert(t0.links_ok_at(ii));
                assert(t0.bh_ok_at(ii));
                assert(t0.colors_ok_at(ii));
                assert(t1.links_ok_at(ii));
                RedBlackTree::lemma_inorder_transposed(
                    t0,
                    t1,
                    key1,
                    key2,
                    t0.node(ii).left_child,
                );
                RedBlackTree::lemma_inorder_transposed(
                    t0,
                    t1,
                    key1,
                    key2,
                    t0.node(ii).right_child,
                );
                assert(t1.inorder_from(c) =~= t0.inorder_from(c).map_values(
                    |k: u64| RedBlackTree::transpose_key(key1, key2, k),
                ));
            },
        }
    }

    /// Unlinking a childless red node from its parent leaves every invariant
    /// intact: no path loses a black node and no red pair can appear.
    #[verifier::rlimit(100)]
    proof fn lemma_delete_leaf_wf(
        t0: RedBlackTree,
        t1: RedBlackTree,
        x: usize,
        p: usize,
        ct: ChildType,
    )
        requires
            t0.links_ok(),
            t0.no_red_red(),
            t0.bh_ok(),
            t0.root_black(),
            t0.occupied(x as int),
            t0.node(x as int).left_child is None,
            t0.node(x as int).right_child is None,
            t0.node(x as int).color is Red,
            t0.node(x as int).position == TreePosition::Child(p, ct),
            t1.root == t0.root,
            t1.nodes@ == t0.nodes@.update(
                p as int,
                (NodeContainer { value: Some(t0.node(p as int).with_child(ct, None)) }),
            ).update(x as int, (NodeContainer { value: None })),
        ensures
            t1.links_ok(),
            t1.no_red_red(),
            t1.bh_ok(),
            t1.root_black(),
            t1.nodes@.len() == t0.nodes@.len(),
            forall|m: int| t1.occupied(m) <==> (t0.occupied(m) && m != x),
            forall|m: int| t1.occupied(m) ==> t1.node(m).key == t0.node(m).key,
    {
        let xi = x as int;
        let pi = p as int;
        assert(t0.links_ok_at(xi));
        assert(t0.links_ok_at(pi));
        assert(t0.bh_ok_at(xi));
        assert(t0.bh_ok_at(pi));
        assert(t0.colors_ok_at(pi));
        assert(p != x);
        assert(t0.node(xi).black_height@ == 0);
        assert(forall|m: int| t1.occupied(m) <==> (t0.occupied(m) && m != xi));
        assert(t1.node(pi) == t0.node(pi).with_child(ct, None));
        assert(forall|m: int| t1.occupied(m) && m != pi ==> t1.node(m) == t0.node(m));
        assert forall|m: int| t1.occupied(m) implies t1.links_ok_at(m) by {
            assert(t0.occupied(m));
            assert(t0.links_ok_at(m));
            if m != pi {
                match t0.node(m).left_child {
                    Some(l) => {
                        assert(t0.links_ok_at(l as int));
                    },
                    None => {},
                }
                match t0.node(m).right_child {
                    Some(r2) => {
                        assert(t0.links_ok_at(r2 as int));
                    },
                    None => {},
                }
                match t0.node(m).position {
                    TreePosition::Child(pm, _) => {
                        assert(t0.links_ok_at(pm as int));
                    },
                    TreePosition::Root => {},
                }
            } else {
                match t0.node(m).position {
                    TreePosition::Child(pm, _) => {
                        assert(t0.links_ok_at(pm as int));
                    },
                    TreePosition::Root => {},
                }
                match t0.node(m).left_child {
                    Some(l) => {
                        assert(t0.links_ok_at(l as int));
                    },
                    None => {},
                }
                match t0.node(m).right_child {
                    Some(r2) => {
                        assert(t0.links_ok_at(r2 as int));
                    },
                    None => {},
                }
            }
        }
        assert(t1.links_ok());
        assert forall|m: int| t1.occupied(m) implies t1.colors_ok_at(m) by {
            assert(t0.occupied(m));
            assert(t0.colors_ok_at(m));
            assert(t0.links_ok_at(m));
        }
        assert forall|m: int| t1.occupied(m) implies t1.bh_ok_at(m) by {
            assert(t0.occupied(m));
            assert(t0.bh_ok_at(m));
            assert(t0.links_ok_at(m));
            if m != pi {
                match t0.node(m).left_child {
                    Some(l) => {
                        assert(t0.links_ok_at(l as int));
                    },
                    None => {},
                }
                match t0.node(m).right_child {
                    Some(r2) => {
                        assert(t0.links_ok_at(r2 as int));
                    },
                    None => {},
                }
            }
        }
        assert(t1.root_black());
    }

    /// Emptying the root slot of a tree whose root has no children leaves an
    /// empty, trivially well-formed tree.
    #[verifier::rlimit(100)]
    proof fn lemma_delete_lone_root_wf(t0: RedBlackTree, t1: RedBlackTree, x: usize)
        requires
            t0.links_ok(),
            t0.no_red_red(),
            t0.bh_ok(),
            t0.root_black(),
            t0.occupied(x as int),
            t0.node(x as int).left_child is None,
            t0.node(x as int).right_child is None,
            t0.node(x as int).position is Root,
            t1.root is None,
            t1.nodes@ == t0.nodes@.update(x as int, (NodeContainer { value: None })),
        ensures
            t1.links_ok(),
            t1.no_red_red(),
            t1.bh_ok(),
            t1.root_black(),
            t1.nodes@.len() == t0.nodes@.len(),
            forall|m: int| t1.occupied(m) <==> (t0.occupied(m) && m != x),
            forall|m: int| t1.occupied(m) ==> t1.node(m).key == t0.node(m).key,
    {
        let xi = x as int;
        assert(t0.links_ok_at(xi));
        assert(forall|m: int| t1.occupied(m) <==> (t0.occupied(m) && m != xi));
        assert forall|m: int| t1.occupied(m) implies t1.links_ok_at(m) by {
            assert(t0.occupied(m));
            assert(t0.links_ok_at(m));
            match t0.node(m).left_child {
                Some(l) => {
                    assert(t0.links_ok_at(l as int));
                },
                None => {},
            }
            match t0.node(m).right_child {
                Some(r2) => {
                    assert(t0.links_ok_at(r2 as int));
                },
                None => {},
            }
            match t0.node(m).position {
                TreePosition::Child(pm, _) => {
                    assert(t0.links_ok_at(pm as int));
                },
                TreePosition::Root => {},
            }
        }
        assert(t1.links_ok());
        assert forall|m: int| t1.occupied(m) implies t1.colors_ok_at(m) by {
            assert(t0.occupied(m));
            assert(t0.colors_ok_at(m));
            assert(t0.links_ok_at(m));
        }
        assert forall|m: int| t1.occupied(m) implies t1.bh_ok_at(m) by {
            assert(t0.occupied(m));
            assert(t0.bh_ok_at(m));
            assert(t0.links_ok_at(m));
            match t0.node(m).left_child {
                Some(l) => {
                    assert(t0.links_ok_at(l as int));
                },
                None => {},
            }
            match t0.node(m).right_child {
                Some(r2) => {
                    assert(t0.links_ok_at(r2 as int));
                },
                None => {},
            }
        }
        assert(t1.root_black());
    }

    /// Replacing the root by its only child, recolored black, leaves every
    /// invariant intact: that child must be a childless red node, so the
    /// tree shrinks to a single black node on that side.
    #[verifier::rlimit(100)]
    proof fn lemma_delete_root_child_wf(t0: RedBlackTree, t1: RedBlackTree, x: usize, c: usize)
        requires
            t0.links_ok(),
            t0.no_red_red(),
            t0.bh_ok(),
            t0.root_black(),
            t0.occupied(x as int),
            t0.node(x as int).position is Root,
            ({
                let n = t0.node(x as int);
                (n.left_child == Some(c) && n.right_child is None) || (n.left_child is None
                    && n.right_child == Some(c))
            }),
            t1.root == Some(c),
            t1.nodes@ == t0.nodes@.update(x as int, (NodeContainer { value: None })).update(
                c as int,
                (NodeContainer {
                    value: Some(
                        RedBlackTreeNode {
                            position: TreePosition::Root,
                            color: Color::Black,
                            black_height: Ghost(1nat),
                            ..t0.node(c as int)
                        },
                    ),
                }),
            ),
        ensures
            t1.links_ok(),
            t1.no_red_red(),
            t1.bh_ok(),
            t1.root_black(),
            t1.nodes@.len() == t0.nodes@.len(),
            forall|m: int| t1.occupied(m) <==> (t0.occupied(m) && m != x),
            forall|m: int| t1.occupied(m) ==> t1.node(m).key == t0.node(m).key,
    {
        let xi = x as int;
        let ci = c as int;
        assert(t0.links_ok_at(xi));
        assert(t0.bh_ok_at(xi));
        assert(t0.occupied(ci));
        assert(t0.links_ok_at(ci));
        assert(t0.bh_ok_at(ci));
        assert(t0.colors_ok_at(xi));
        assert(c != x);
        // the only child of the root sits under a black node whose other side
        // is empty, so it is red with black-height zero and has no children
        assert(t0.node(ci).color is Red);
        assert(t0.colors_ok_at(ci));
        match t0.node(ci).left_child {
            Some(l) => {
                assert(t0.links_ok_at(l as int));
                assert(t0.bh_ok_at(l as int));
                assert(false);
            },
            None => {},
        }
        match t0.node(ci).right_child {
            Some(r2) => {
                assert(t0.links_ok_at(r2 as int));
                assert(t0.bh_ok_at(r2 as int));
                assert(false);
            },
            None => {},
        }
        assert(forall|m: int| t1.occupied(m) <==> (t0.occupied(m) && m != xi));
        assert forall|m: int| t1.occupied(m) implies t1.links_ok_at(m) by {
            assert(t0.occupied(m));
            assert(t0.links_ok_at(m));
            match t0.node(m).left_child {
                Some(l) => {
                    assert(t0.links_ok_at(l as int));
                },
                None => {},
            }
            match t0.node(m).right_child {
                Some(r2) => {
                    assert(t0.links_ok_at(r2 as int));
                },
                None => {},
            }
            match t0.node(m).position {
                TreePosition::Child(pm, _) => {
                    assert(t0.links_ok_at(pm as int));
                },
                TreePosition::Root => {},
            }
        }
        assert(t1.links_ok());
        assert forall|m: int| t1.occupied(m) implies t1.colors_ok_at(m) by {
            assert(t0.occupied(m));
            assert(t0.colors_ok_at(m));
            assert(t0.links_ok_at(m));
        }
        assert forall|m: int| t1.occupied(m) implies t1.bh_ok_at(m) by {
            assert(t0.occupied(m));
            assert(t0.bh_ok_at(m));
            assert(t0.links_ok_at(m));
            match t0.node(m).left_child {
                Some(l) => {
                    assert(t0.links_ok_at(l as int));
                },
                None => {},
            }
            match t0.node(m).right_child {
                Some(r2) => {
                    assert(t0.links_ok_at(r2 as int));
                },
                None => {},
            }
        }
        assert(t1.root_black());
    }

    /// Splicing the sole child of a non-root node into its parent's slot,
    /// recolored black, leaves every invariant intact: such a node is always
    /// black over a red childless child, so the paths through it keep their
    /// single black node.
    proof fn lemma_delete_splice_wf(
        t0: RedBlackTree,
        t1: RedBlackTree,
        x: usize,
        p: usize,
        ct: ChildType,
        c: usize,
    )
        requires
            t0.links_ok(),
            t0.no_red_red(),
            t0.bh_ok(),
            t0.root_black(),
            t0.occupied(x as int),
            t0.node(x as int).position == TreePosition::Child(p, ct),
            ({
                let n = t0.node(x as int);
                (n.left_child == Some(c) && n.right_child is None) || (n.left_child is None
                    && n.right_child == Some(c))
            }),
            t1.root == t0.root,
            t1.nodes@ == t0.nodes@.update(
                p as int,
                (NodeContainer { value: Some(t0.node(p as int).with_child(ct, Some(c))) }),
            ).update(
                c as int,
                (NodeContainer {
                    value: Some(
                        RedBlackTreeNode {
                            position: (TreePosition::Child(p, ct)),
                            color: Color::Black,
                            black_height: Ghost(1nat),
                            ..t0.node(c as int)
                        },
                    ),
                }),
            ).update(x as int, (NodeContainer { value: None })),
        ensures
            t1.links_ok(),
            t1.no_red_red(),
            t1.bh_ok(),
            t1.root_black(),
            t1.nodes@.len() == t0.nodes@.len(),
            forall|m: int| t1.occupied(m) <==> (t0.occupied(m) && m != x),
            forall|m: int| t1.occupied(m) ==> t1.node(m).key == t0.node(m).key,
    {
        let xi = x as int;
        let pi = p as int;
        let ci = c as int;
        assert(t0.links_ok_at(xi));
        assert(t0.links_ok_at(pi));
        assert(t0.links_ok_at(ci));
        assert(t0.bh_ok_at(xi));
        assert(t0.bh_ok_at(pi));
        assert(t0.bh_ok_at(ci));
        assert(t0.colors_ok_at(xi));
        assert(t0.colors_ok_at(ci));
        assert(p != x && c != x && c != p);
        // the one-child node is black and its child is a red childless node
        // with black-height zero, so the spliced child, recolored black,
        // carries exactly the one black level the paths had
        match t0.node(ci).left_child {
            Some(l) => {
                assert(t0.links_ok_at(l as int));
                assert(t0.bh_ok_at(l as int));
                assert(false);
            },
            None => {},
        }
        match t0.node(ci).right_child {
            Some(r2) => {
                assert(t0.links_ok_at(r2 as int));
                assert(t0.bh_ok_at(r2 as int));
                assert(false);
            },
            None => {},
        }
        assert(t0.node(xi).color is Black);
        assert(t0.node(ci).color is Red);
        assert(t0.node(xi).black_height@ == 1);
        RedBlackTree::lemma_splice_links(t0, t1, x, p, ct, c);
        RedBlackTree::lemma_splice_colors(t0, t1, x, p, ct, c);
        RedBlackTree::lemma_splice_bh(t0, t1, x, p, ct, c);
        match t0.root {
            Some(r) => {
                assert(r != x);
            },
            None => {},
        }
        assert(t1.root_black());
    }

    /// The link-consistency half of the splice: the parent's freed side now
    /// names the grandchild, whose recorded position follows.
    #[verifier::rlimit(100)]
    proof fn lemma_splice_links(
        t0: RedBlackTree,
        t1: RedBlackTree,
        x: usize,
        p: usize,
        ct: ChildType,
        c: usize,
    )
        requires
            t0.links_ok(),
            t0.occupied(x as int),
            t0.node(x as int).position == TreePosition::Child(p, ct),
            ({
                let n = t0.node(x as int);
                (n.left_child == Some(c) && n.right_child is None) || (n.left_child is None
                    && n.right_child == Some(c))
            }),
            t0.node(c as int).left_child is None,
            t0.node(c as int).right_child is None,
            p != x && c != x && c != p,
            t1.root == t0.root,
            t1.nodes@ == t0.nodes@.update(
                p as int,
                (NodeContainer { value: Some(t0.node(p as int).with_child(ct, Some(c))) }),
            ).update(
                c as int,
                (NodeContainer {
                    value: Some(
                        RedBlackTreeNode {
                            position: (TreePosition::Child(p, ct)),
                            color: Color::Black,
                            black_height: Ghost(1nat),
                            ..t0.node(c as int)
                        },
                    ),
                }),
            ).update(x as int, (NodeContainer { value: None })),
        ensures
            t1.links_ok(),
            forall|m: int| t1.occupied(m) <==> (t0.occupied(m) && m != x),
            forall|m: int| t1.occupied(m) ==> t1.node(m).key == t0.node(m).key,
    {
        let xi = x as int;
        let pi = p as int;
        let ci = c as int;
        assert(t0.links_ok_at(xi));
        assert(t0.links_ok_at(pi));
        assert(t0.links_ok_at(ci));
        assert(forall|m: int| t1.occupied(m) <==> (t0.occupied(m) && m != xi));
        match t0.node(pi).position {
            TreePosition::Child(pm, _) => {
                assert(t0.links_ok_at(pm as int));
            },
            TreePosition::Root => {},
        }
        match t0.node(pi).spec_child(ct.spec_flip()) {
            Some(z) => {
                assert(t0.links_ok_at(z as int));
            },
            None => {},
        }
        assert(t1.links_ok_at(pi));
        assert(t1.links_ok_at(ci));
        assert forall|m: int| t1.occupied(m) && m != pi && m != ci implies t1.links_ok_at(m) by {
            assert(t0.occupied(m));
            assert(t0.links_ok_at(m));
            match t0.node(m).position {
                TreePosition::Child(pm, _) => {
                    assert(t0.links_ok_at(pm as int));
                },
                TreePosition::Root => {},
            }
        }
        assert forall|m: int| t1.occupied(m) implies t1.links_ok_at(m) by {}
    }

    /// The coloring half of the splice: the spliced child turns black, so no
    /// red pair can appear.
    #[verifier::rlimit(100)]
    proof fn lemma_splice_colors(
        t0: RedBlackTree,
        t1: RedBlackTree,
        x: usize,
        p: usize,
        ct: ChildType,
        c: usize,
    )
        requires
            t0.no_red_red(),
            t0.links_ok(),
            t0.occupied(x as int),
            t0.node(x as int).position == TreePosition::Child(p, ct),
            ({
                let n = t0.node(x as int);
                (n.left_child == Some(c) && n.right_child is None) || (n.left_child is None
                    && n.right_child == Some(c))
            }),
            t0.node(c as int).left_child is None,
            t0.node(c as int).right_child is None,
            p != x && c != x && c != p,
            t1.root == t0.root,
            t1.nodes@ == t0.nodes@.update(
                p as int,
                (NodeContainer { value: Some(t0.node(p as int).with_child(ct, Some(c))) }),
            ).update(
                c as int,
                (NodeContainer {
                    value: Some(
                        RedBlackTreeNode {
                            position: (TreePosition::Child(p, ct)),
                            color: Color::Black,
                            black_height: Ghost(1nat),
                            ..t0.node(c as int)
                        },
                    ),
                }),
            ).update(x as int, (NodeContainer { value: None })),
        ensures
            t1.no_red_red(),
    {
        let xi = x as int;
        let pi = p as int;
        let ci = c as int;
        assert(t0.links_ok_at(xi));
        assert forall|m: int| t1.occupied(m) implies t1.colors_ok_at(m) by {
            assert(t0.occupied(m));
            assert(t0.colors_ok_at(m));
            assert(t0.links_ok_at(m));
        }
    }

    /// The black-height half of the splice: the recolored child carries the
    /// one black level the removed node held, so every path keeps its count.
    #[verifier::rlimit(100)]
    proof fn lemma_splice_bh(
        t0: RedBlackTree,
        t1: RedBlackTree,
        x: usize,
        p: usize,
        ct: ChildType,
        c: usize,
    )
        requires
            t0.bh_ok(),
            t0.links_ok(),
            t0.node(x as int).black_height@ == 1,
            t0.node(c as int).color is Red,
            t0.occupied(x as int),
            t0.node(x as int).position == TreePosition::Child(p, ct),
            ({
                let n = t0.node(x as int);
                (n.left_child == Some(c) && n.right_child is None) || (n.left_child is None
                    && n.right_child == Some(c))
            }),
            t0.node(c as int).left_child is None,
            t0.node(c as int).right_child is None,
            p != x && c != x && c != p,
            t1.root == t0.root,
            t1.nodes@ == t0.nodes@.update(
                p as int,
                (NodeContainer { value: Some(t0.node(p as int).with_child(ct, Some(c))) }),
            ).update(
                c as int,
                (NodeContainer {
                    value: Some(
                        RedBlackTreeNode {
                            position: (TreePosition::Child(p, ct)),
                            color: Color::Black,
                            black_height: Ghost(1nat),
                            ..t0.node(c as int)
                        },
                    ),
                }),
            ).update(x as int, (NodeContainer { value: None })),
        ensures
            t1.bh_ok(),
    {
        let xi = x as int;
        let pi = p as int;
        let ci = c as int;
        assert(t0.links_ok_at(xi));
        assert(t0.links_ok_at(pi));
        assert(t0.links_ok_at(ci));
        assert(t0.bh_ok_at(xi));
        assert(t0.bh_ok_at(pi));
        assert(t0.bh_ok_at(ci));
        match t0.node(pi).spec_child(ct.spec_flip()) {
            Some(z) => {
                assert(t0.links_ok_at(z as int));
            },
            None => {},
        }
        assert(t1.bh_ok_at(pi));
        assert(t1.bh_ok_at(ci));
        assert forall|m: int| t1.occupied(m) && m != pi && m != ci implies t1.bh_ok_at(m) by {
            assert(t0.occupied(m));
            assert(t0.bh_ok_at(m));
            assert(t0.links_ok_at(m));
        }
        assert forall|m: int| t1.occupied(m) implies t1.bh_ok_at(m) by {}
    }

    /// After the terminal rotation at the black grandparent `g` and the
    /// color exchange between `g` and the promoted `p`, every invariant is
    /// restored.  `tr` is the state just after the rotation, `t2` the state
    /// after the recoloring.
    #[verifier::rlimit(100)]
    proof fn lemma_case_four_restores(
        t0: RedBlackTree,
        tr: RedBlackTree,
        t2: RedBlackTree,
        x: usize,
        p: usize,
        g: usize,
        ct: ChildType,
    )
        requires
            t0.links_ok(),
            t0.index_ok(),
            t0.bh_ok(),
            t0.occupied(x as int),
            t0.occupied(p as int),
            t0.occupied(g as int),
            RedBlackTree::pos_is(t0.node(x as int).position, p as int, ct),
            RedBlackTree::pos_is(t0.node(p as int).position, g as int, ct),
            t0.node(x as int).color is Red,
            t0.node(p as int).color is Red,
            t0.node(g as int).color is Black,
            t0.color_of(t0.node(x as int).left_child) is Black,
            t0.color_of(t0.node(x as int).right_child) is Black,
            t0.color_of(t0.node(g as int).spec_child(ct.spec_flip())) is Black,
            (t0.root matches Some(r) ==> t0.node(r as int).color is Black),
            forall|i: int| #[trigger] t0.occupied(i) ==> t0.red_ok_except_at(i, x as int),
            // the rotation's outcome
            tr.links_ok(),
            tr.nodes@.len() == t0.nodes@.len(),
            forall|m: int| tr.occupied(m) == t0.occupied(m),
            tr.root == (if t0.node(g as int).position is Root {
                Some(p)
            } else {
                t0.root
            }),
            forall|m: int|
                tr.occupied(m) && m != g && m != p && !(t0.node(p as int).spec_child(
                    ct.spec_flip(),
                ) matches Some(q) && q == m) && !(t0.node(g as int)
                    .position matches TreePosition::Child(gp, _) && gp == m) ==> tr.node(m)
                    == t0.node(m),
            tr.node(g as int) == t0.node(g as int).with_child(
                ct,
                t0.node(p as int).spec_child(ct.spec_flip()),
            ).with_position(TreePosition::Child(p, ct.spec_flip())),
            tr.node(p as int) == t0.node(p as int).with_child(
                ct.spec_flip(),
                Some(g),
            ).with_position(t0.node(g as int).position),
            (t0.node(p as int).spec_child(ct.spec_flip()) matches Some(q) ==> tr.node(q as int)
                == t0.node(q as int).with_position(TreePosition::Child(g, ct))),
            (t0.node(g as int).position matches TreePosition::Child(gp, ctg) ==> tr.node(gp as int)
                == t0.node(gp as int).with_child(ctg, Some(p))),
            tr.nodes@ == RedBlackTree::rotate_pair(t0.nodes@, t0.root, g, ct.spec_flip()).0,
            tr.root == RedBlackTree::rotate_pair(t0.nodes@, t0.root, g, ct.spec_flip()).1,
            // the recoloring's outcome
            t2.nodes@ == tr.nodes@.update(
                p as int,
                (NodeContainer {
                    value: Some(
                        RedBlackTreeNode {
                            color: Color::Black,
                            black_height: t0.node(g as int).black_height,
                            ..tr.node(p as int)
                        },
                    ),
                }),
            ).update(
                g as int,
                (NodeContainer {
                    value: Some(
                        RedBlackTreeNode {
                            color: Color::Red,
                            black_height: t0.node(p as int).black_height,
                            ..tr.node(g as int)
                        },
                    ),
                }),
            ),
            t2.root == tr.root,
            t2.index@ == t0.index@,
        ensures
            t2.wf(),
            t2.nodes@.len() == t0.nodes@.len(),
            forall|m: int| t2.occupied(m) == t0.occupied(m),
            forall|m: int| t2.occupied(m) ==> t2.node(m).key == t0.node(m).key,
            t2.nodes@ == RedBlackTree::case_four_pair(t0.nodes@, t0.root, p, g, ct).0,
            t2.root == RedBlackTree::case_four_pair(t0.nodes@, t0.root, p, g, ct).1,
    {
        let xi = x as int;
        let pi = p as int;
        let gi = g as int;
        let qo = t0.node(pi).spec_child(ct.spec_flip());
        assert(t0.links_ok_at(xi));
        assert(t0.links_ok_at(pi));
        assert(t0.links_ok_at(gi));
        assert(t0.bh_ok_at(xi));
        assert(t0.bh_ok_at(pi));
        assert(t0.bh_ok_at(gi));
        assert(p != g);
        assert(x != p);
        assert(x != g);
        match qo {
            Some(s) => {
                assert(t0.links_ok_at(s as int));
                assert(t0.bh_ok_at(s as int));
                assert(s != p && s != g);
            },
            None => {},
        }
        match t0.node(gi).position {
            TreePosition::Child(gp, _) => {
                assert(t0.links_ok_at(gp as int));
                assert(t0.bh_ok_at(gp as int));
                assert(gp != g && gp != p);
                match qo {
                    Some(s) => {
                        assert(gp != s);
                    },
                    None => {},
                }
            },
            TreePosition::Root => {},
        }
        assert(forall|m: int| t2.occupied(m) == t0.occupied(m));
        assert(t2.node(pi) == (RedBlackTreeNode {
            color: Color::Black,
            black_height: t0.node(gi).black_height,
            ..tr.node(pi)
        }));
        assert(t2.node(gi) == (RedBlackTreeNode {
            color: Color::Red,
            black_height: t0.node(pi).black_height,
            ..tr.node(gi)
        }));
        assert(forall|m: int| tr.occupied(m) && m != pi && m != gi ==> t2.node(m) == tr.node(m));
        RedBlackTree::lemma_links_unchanged(tr, t2);
        assert forall|m: int| t2.occupied(m) implies t2.node(m).key == t0.node(m).key by {
            assert(t0.occupied(m));
        }
        RedBlackTree::lemma_index_unchanged(t0, t2);
        // the displaced inner subtree root is black: a red one would have had
        // to be the repaired slot itself, which sits on the other side
        match qo {
            Some(s) => {
                assert(t0.red_ok_except_at(pi, xi));
                assert(s != x);
                assert(t0.node(s as int).color is Black);
            },
            None => {},
        }
        assert forall|i: int| t2.occupied(i) implies t2.colors_ok_at(i) by {
            assert(t0.occupied(i));
            assert(t0.red_ok_except_at(i, xi));
            assert(t0.links_ok_at(i));
            if i != pi && i != gi && i != xi {
                match t2.node(i).left_child {
                    Some(l) => {
                        assert(t0.links_ok_at(l as int));
                    },
                    None => {},
                }
                match t2.node(i).right_child {
                    Some(r) => {
                        assert(t0.links_ok_at(r as int));
                    },
                    None => {},
                }
            }
        }
        assert forall|i: int| t2.occupied(i) implies t2.bh_ok_at(i) by {
            assert(t0.occupied(i));
            assert(t0.bh_ok_at(i));
            assert(t0.links_ok_at(i));
            if i != pi && i != gi && i != xi {
                match t0.node(i).left_child {
                    Some(l) => {
                        assert(t0.links_ok_at(l as int));
                    },
                    None => {},
                }
                match t0.node(i).right_child {
                    Some(r) => {
                        assert(t0.links_ok_at(r as int));
                    },
                    None => {},
                }
            }
        }
        assert(t2.root_black());
        assert(t2.nodes@ == RedBlackTree::case_four_pair(t0.nodes@, t0.root, p, g, ct).0);
        assert(t2.root == RedBlackTree::case_four_pair(t0.nodes@, t0.root, p, g, ct).1);
    }

    /// The terminal repair step: `x` is red under the red parent `p`, both
    /// attached on side `ct` of their parents, the grandparent `g` is black
    /// and the uncle is black.  Rotating `g` away from `p` and exchanging the
    /// colors of `p` and `g` restores every invariant.
    #[verifier::rlimit(100)]
    fn repair_case_four(&mut self, x: usize, p: usize, g: usize, ct: ChildType)
        requires
            old(self).links_ok(),
            old(self).index_ok(),
            old(self).bh_ok(),
            old(self).occupied(x as int),
            old(self).occupied(p as int),
            old(self).occupied(g as int),
            RedBlackTree::pos_is(old(self).node(x as int).position, p as int, ct),
            RedBlackTree::pos_is(old(self).node(p as int).position, g as int, ct),
            old(self).node(x as int).color is Red,
            old(self).node(p as int).color is Red,
            old(self).node(g as int).color is Black,
            old(self).color_of(old(self).node(x as int).left_child) is Black,
            old(self).color_of(old(self).node(x as int).right_child) is Black,
            old(self).color_of(old(self).node(g as int).spec_child(ct.spec_flip())) is Black,
            (old(self).root matches Some(r) ==> old(self).node(r as int).color is Black),
            forall|i: int|
                #[trigger] old(self).occupied(i) ==> old(self).red_ok_except_at(i, x as int),
        ensures
            final(self).wf(),
            final(self).index == old(self).index,
            final(self).nodes@.len() == old(self).nodes@.len(),
            forall|m: int| final(self).occupied(m) == old(self).occupied(m),
            forall|m: int|
                final(self).occupied(m) ==> final(self).node(m).key == old(self).node(m).key,
            final(self).nodes@ == RedBlackTree::case_four_pair(
                old(self).nodes@,
                old(self).root,
                p,
                g,
                ct,
            ).0,
            final(self).root == RedBlackTree::case_four_pair(
                old(self).nodes@,
                old(self).root,
                p,
                g,
                ct,
            ).1,
    {
        let ghost t0 = *old(self);
        let ghost xi = x as int;
        let ghost pi = p as int;
        let ghost gi = g as int;
        proof {
            assert(t0.links_ok_at(xi));
            assert(t0.links_ok_at(pi));
            assert(t0.links_ok_at(gi));
            assert(t0.bh_ok_at(xi));
            assert(t0.bh_ok_at(pi));
            assert(t0.bh_ok_at(gi));
            assert(t0.node(gi).spec_child(ct) == Some(p));
            assert(p != g);
            assert(x != p);
            assert(x != g);
            match t0.node(pi).spec_child(ct.spec_flip()) {
                Some(s) => {
                    assert(t0.links_ok_at(s as int));
                    assert(t0.bh_ok_at(s as int));
                    assert(s != p && s != g);
                },
                None => {},
            }
            match t0.node(gi).position {
                TreePosition::Child(gp, _) => {
                    assert(t0.links_ok_at(gp as int));
                    assert(t0.bh_ok_at(gp as int));
                    assert(gp != g && gp != p);
                    match t0.node(pi).spec_child(ct.spec_flip()) {
                        Some(s) => {
                            assert(gp != s);
                        },
                        None => {},
                    }
                },
                TreePosition::Root => {},
            }
        }
        let p_node = self.read_node(p);
        let g_node = self.read_node(g);
        let top = self.rotate(g, ct.flip());
        let ghost tr = *self;
        proof {
            assert(top == p);
        }
        let mut new_p = self.read_node(p);
        new_p.color = Color::Black;
        new_p.black_height = Ghost(g_node.black_height@);
        self.write_node(p, new_p);
        let mut new_g = self.read_node(g);
        new_g.color = Color::Red;
        new_g.black_height = Ghost(p_node.black_height@);
        self.write_node(g, new_g);
        proof {
            let t2 = *self;
            assert(t2.node(pi) == (RedBlackTreeNode {
                color: Color::Black,
                black_height: t0.node(gi).black_height,
                ..tr.node(pi)
            }));
            assert(t2.node(gi) == (RedBlackTreeNode {
                color: Color::Red,
                black_height: t0.node(pi).black_height,
                ..tr.node(gi)
            }));
            RedBlackTree::lemma_case_four_restores(t0, tr, t2, x, p, g, ct);
        }
    }

    /// The zig-zag repair step: `x` is red under the red parent `p`, but on
    /// the side opposite to the one `p` occupies under the black grandparent
    /// `g`.  One rotation at `p` straightens the pair; the former parent then
    /// plays the part of the inserted node for the terminal step.
    #[verifier::rlimit(100)]
    fn repair_straighten(&mut self, x: usize, p: usize, g: usize, ct: ChildType)
        requires
            old(self).links_ok(),
            old(self).index_ok(),
            old(self).bh_ok(),
            old(self).occupied(x as int),
            old(self).occupied(p as int),
            old(self).occupied(g as int),
            RedBlackTree::pos_is(old(self).node(x as int).position, p as int, ct.spec_flip()),
            RedBlackTree::pos_is(old(self).node(p as int).position, g as int, ct),
            old(self).node(x as int).color is Red,
            old(self).node(p as int).color is Red,
            old(self).node(g as int).color is Black,
            old(self).color_of(old(self).node(x as int).left_child) is Black,
            old(self).color_of(old(self).node(x as int).right_child) is Black,
            old(self).color_of(old(self).node(g as int).spec_child(ct.spec_flip())) is Black,
            (old(self).root matches Some(r) ==> old(self).node(r as int).color is Black),
            forall|i: int|
                #[trigger] old(self).occupied(i) ==> old(self).red_ok_except_at(i, x as int),
        ensures
            final(self).wf(),
            final(self).index == old(self).index,
            final(self).nodes@.len() == old(self).nodes@.len(),
            forall|m: int| final(self).occupied(m) == old(self).occupied(m),
            forall|m: int|
                final(self).occupied(m) ==> final(self).node(m).key == old(self).node(m).key,
            ({
                let s1 = RedBlackTree::rotate_pair(old(self).nodes@, old(self).root, p, ct);
                let pr = RedBlackTree::case_four_pair(s1.0, s1.1, x, g, ct);
                final(self).nodes@ == pr.0 && final(self).root == pr.1
            }),
    {
        let ghost t0 = *old(self);
        let ghost xi = x as int;
        let ghost pi = p as int;
        let ghost gi = g as int;
        proof {
            assert(t0.links_ok_at(xi));
            assert(t0.links_ok_at(pi));
            assert(t0.links_ok_at(gi));
            assert(t0.bh_ok_at(xi));
            assert(t0.bh_ok_at(pi));
            assert(t0.bh_ok_at(gi));
            assert(t0.node(pi).spec_child(ct.spec_flip()) == Some(x));
            assert(t0.node(gi).spec_child(ct) == Some(p));
            assert(x != p);
            assert(x != g);
            assert(p != g);
            match t0.node(xi).spec_child(ct) {
                Some(q) => {
                    assert(t0.links_ok_at(q as int));
                    assert(t0.bh_ok_at(q as int));
                    assert(t0.node(q as int).color is Black);
                    assert(q != x && q != p && q != g);
                },
                None => {},
            }
        }
        let _ = self.rotate(p, ct);
        let ghost tm = *self;
        proof {
            let qo = t0.node(xi).spec_child(ct);
            assert(tm.node(pi) == t0.node(pi).with_child(ct.spec_flip(), qo).with_position(
                TreePosition::Child(x, ct),
            ));
            assert(tm.node(xi) == t0.node(xi).with_child(ct, Some(p)).with_position(
                t0.node(pi).position,
            ));
            assert forall|m: int| tm.occupied(m) implies tm.node(m).key == t0.node(m).key by {
                assert(t0.occupied(m));
            }
            RedBlackTree::lemma_index_unchanged(t0, tm);
            // black-heights: the rotation moved only subtrees of equal height
            assert forall|i: int| tm.occupied(i) implies tm.bh_ok_at(i) by {
                assert(t0.occupied(i));
                assert(t0.bh_ok_at(i));
                assert(t0.links_ok_at(i));
                if i == pi || i == xi || i == gi {
                } else {
                    match t0.node(i).left_child {
                        Some(l) => {
                            assert(t0.links_ok_at(l as int));
                        },
                        None => {},
                    }
                    match t0.node(i).right_child {
                        Some(r) => {
                            assert(t0.links_ok_at(r as int));
                        },
                        None => {},
                    }
                }
            }
            // the red pair is now aligned, with all other coloring untouched
            assert forall|i: int| tm.occupied(i) implies tm.red_ok_except_at(i, pi) by {
                assert(t0.occupied(i));
                assert(t0.red_ok_except_at(i, xi));
                assert(t0.links_ok_at(i));
                if i == pi || i == xi || i == gi {
                } else {
                    match t0.node(i).left_child {
                        Some(l) => {
                            assert(t0.links_ok_at(l as int));
                        },
                        None => {},
                    }
                    match t0.node(i).right_child {
                        Some(r) => {
                            assert(t0.links_ok_at(r as int));
                        },
                        None => {},
                    }
                }
            }
            assert(RedBlackTree::pos_is(tm.node(pi).position, xi, ct));
            assert(RedBlackTree::pos_is(tm.node(xi).position, gi, ct));
            assert(tm.color_of(tm.node(pi).left_child) is Black);
            assert(tm.color_of(tm.node(pi).right_child) is Black);
            assert(tm.color_of(tm.node(gi).spec_child(ct.spec_flip())) is Black);
            assert(tm.root matches Some(r) ==> tm.node(r as int).color is Black);
        }
        self.repair_case_four(p, x, g, ct);
    }

    /// Repair the tree above the red node in slot `x` after an insertion (or
    /// after recoloring a grandparent on the way up): color the root black,
    /// stop under a black parent, push a red pair of parent and uncle up by
    /// recoloring, or finish with a rotation when the uncle is black.
    #[verifier::rlimit(100)]
    fn repair_tree(&mut self, x: usize)
        requires
            old(self).repair_inv(x as int),
        ensures
            final(self).wf(),
            final(self).index == old(self).index,
            final(self).nodes@.len() == old(self).nodes@.len(),
            forall|m: int| final(self).occupied(m) == old(self).occupied(m),
            forall|m: int|
                final(self).occupied(m) ==> final(self).node(m).key == old(self).node(m).key,
            RedBlackTree::repair_outcome(
                old(self).nodes@,
                old(self).root,
                x,
                final(self).nodes@,
                final(self).root,
            ),
        decreases old(self).count_red(),
    {
        let ghost t0 = *old(self);
        let ghost xi = x as int;
        proof {
            assert(t0.links_ok_at(xi));
            assert(t0.bh_ok_at(xi));
        }
        let x_node = self.read_node(x);
        match x_node.position {
            TreePosition::Root => {
                // Insert case: the node is the root; color it black.
                let mut xn = x_node;
                xn.color = Color::Black;
                xn.black_height = Ghost(x_node.black_height@ + 1);
                self.write_node(x, xn);
                proof {
                    let t1 = *self;
                    assert(forall|m: int| t1.occupied(m) == t0.occupied(m));
                    assert(forall|m: int|
                        t1.occupied(m) && m != xi ==> t1.node(m) == t0.node(m));
                    RedBlackTree::lemma_links_unchanged(t0, t1);
                    assert forall|m: int| t1.occupied(m) implies t1.node(m).key == t0.node(
                        m,
                    ).key by {
                        assert(t0.occupied(m));
                    }
                    RedBlackTree::lemma_index_unchanged(t0, t1);
                    assert forall|i: int| t1.occupied(i) implies t1.colors_ok_at(i) by {
                        assert(t0.occupied(i));
                        assert(t0.red_ok_except_at(i, xi));
                        assert(t0.links_ok_at(i));
                    }
                    assert forall|i: int| t1.occupied(i) implies t1.bh_ok_at(i) by {
                        assert(t0.occupied(i));
                        assert(t0.bh_ok_at(i));
                        assert(t0.links_ok_at(i));
                        if i != xi {
                            match t0.node(i).left_child {
                                Some(l) => {
                                    assert(t0.links_ok_at(l as int));
                                },
                                None => {},
                            }
                            match t0.node(i).right_child {
                                Some(r) => {
                                    assert(t0.links_ok_at(r as int));
                                },
                                None => {},
                            }
                        }
                    }
                    assert(t1.root_black());
                    assert(RedBlackTree::repair_outcome(t0.nodes@, t0.root, x, t1.nodes@, t1.root));
                }
            },
            TreePosition::Child(p, ct_x) => {
                let ghost pi = p as int;
                let p_node = self.read_node(p);
                if matches!(p_node.color, Color::Black) {
                    // Insert case: the parent is black; nothing to repair.
                    proof {
                        let t1 = *self;
                        assert forall|i: int| t1.occupied(i) implies t1.colors_ok_at(i) by {
                            assert(t0.red_ok_except_at(i, xi));
                            assert(t0.links_ok_at(i));
                            match t0.node(i).left_child {
                                Some(l) => {
                                    assert(t0.links_ok_at(l as int));
                                },
                                None => {},
                            }
                            match t0.node(i).right_child {
                                Some(r) => {
                                    assert(t0.links_ok_at(r as int));
                                },
                                None => {},
                            }
                        }
                        assert(t1.root_black());
                        assert(RedBlackTree::repair_outcome(
                            t0.nodes@,
                            t0.root,
                            x,
                            t1.nodes@,
                            t1.root,
                        ));
                    }
                } else {
                    proof {
                        // the red parent cannot be the root, and the edge
                        // above it cannot be red as well
                        assert(t0.red_ok_except_at(pi, xi));
                        assert(p != x);
                        assert(t0.links_ok_at(pi));
                        assert(!(t0.node(pi).position is Root));
                    }
                    let (g, ct_p) = match p_node.position {
                        TreePosition::Child(g, ct_p) => (g, ct_p),
                        TreePosition::Root => unreached(),
                    };
                    let ghost gi = g as int;
                    proof {
                        assert(t0.occupied(gi));
                        assert(t0.links_ok_at(gi));
                        assert(t0.bh_ok_at(gi));
                        assert(t0.bh_ok_at(pi));
                        assert(t0.red_ok_except_at(gi, xi));
                        assert(t0.node(gi).color is Black);
                        assert(g != x && g != p);
                    }
                    let g_node = self.read_node(g);
                    let uncle_opt = g_node.child(ct_p.flip());
                    let uncle_is_red = match uncle_opt {
                        Some(u) => {
                            proof {
                                assert(t0.occupied(u as int));
                            }
                            matches!(self.read_node(u).color, Color::Red)
                        },
                        None => false,
                    };
                    if uncle_is_red {
                        // Insert case: parent and uncle are red; color both
                        // black, the grandparent red, and repair there.
                        let u = uncle_opt.unwrap();
                        let ghost ui = u as int;
                        let u_node = self.read_node(u);
                        proof {
                            assert(t0.links_ok_at(ui));
                            assert(t0.bh_ok_at(ui));
                            assert(u != p && u != g && u != x);
                        }
                        let mut new_p = p_node;
                        new_p.color = Color::Black;
                        new_p.black_height = Ghost(p_node.black_height@ + 1);
                        self.write_node(p, new_p);
                        let mut new_u = self.read_node(u);
                        new_u.color = Color::Black;
                        new_u.black_height = Ghost(u_node.black_height@ + 1);
                        self.write_node(u, new_u);
                        let mut new_g = self.read_node(g);
                        new_g.color = Color::Red;
                        self.write_node(g, new_g);
                        proof {
                            let t1 = *self;
                            assert(forall|m: int| t1.occupied(m) == t0.occupied(m));
                            assert(forall|m: int|
                                t1.occupied(m) && m != pi && m != ui && m != gi ==> t1.node(m)
                                    == t0.node(m));
                            RedBlackTree::lemma_links_unchanged(t0, t1);
                            assert forall|m: int| t1.occupied(m) implies t1.node(m).key == t0.node(
                                m,
                            ).key by {
                                assert(t0.occupied(m));
                            }
                            RedBlackTree::lemma_index_unchanged(t0, t1);
                            assert forall|i: int| t1.occupied(i) implies t1.bh_ok_at(i) by {
                                assert(t0.occupied(i));
                                assert(t0.bh_ok_at(i));
                                assert(t0.links_ok_at(i));
                                if i != pi && i != ui && i != gi {
                                    match t0.node(i).left_child {
                                        Some(l) => {
                                            assert(t0.links_ok_at(l as int));
                                        },
                                        None => {},
                                    }
                                    match t0.node(i).right_child {
                                        Some(r) => {
                                            assert(t0.links_ok_at(r as int));
                                        },
                                        None => {},
                                    }
                                }
                            }
                            assert forall|i: int| t1.occupied(i) implies t1.red_ok_except_at(
                                i,
                                gi,
                            ) by {
                                assert(t0.occupied(i));
                                assert(t0.red_ok_except_at(i, xi));
                                assert(t0.links_ok_at(i));
                                match t0.node(i).left_child {
                                    Some(l) => {
                                        assert(t0.links_ok_at(l as int));
                                    },
                                    None => {},
                                }
                                match t0.node(i).right_child {
                                    Some(r) => {
                                        assert(t0.links_ok_at(r as int));
                                    },
                                    None => {},
                                }
                            }
                            assert(t1.repair_inv(gi));
                            RedBlackTree::lemma_count_red_update(
                                t0.nodes@,
                                pi,
                                (NodeContainer { value: Some(new_p) }),
                            );
                            RedBlackTree::lemma_count_red_update(
                                t0.nodes@.update(pi, (NodeContainer { value: Some(new_p) })),
                                ui,
                                (NodeContainer { value: Some(new_u) }),
                            );
                            RedBlackTree::lemma_count_red_update(
                                t0.nodes@.update(pi, (NodeContainer { value: Some(new_p) })).update(
                                    ui,
                                    (NodeContainer { value: Some(new_u) }),
                                ),
                                gi,
                                (NodeContainer { value: Some(new_g) }),
                            );
                            assert(t1.count_red() < t0.count_red());
                        }
                        self.repair_tree(g);
                        proof {
                            assert(RedBlackTree::repair_outcome(
                                t0.nodes@,
                                t0.root,
                                x,
                                self.nodes@,
                                self.root,
                            ));
                        }
                    } else {
                        // Insert case: the uncle is black; finish with one or
                        // two rotations at the grandparent.
                        proof {
                            assert(t0.color_of(t0.node(gi).spec_child(ct_p.spec_flip()))
                                is Black);
                            assert(t0.root matches Some(r) ==> t0.node(r as int).color is Black);
                        }
                        if matches!(ct_x, ChildType::Left) == matches!(ct_p, ChildType::Left) {
                            proof {
                                assert(ct_x == ct_p);
                                assert(RedBlackTree::pos_is(t0.node(xi).position, pi, ct_p));
                            }
                            self.repair_case_four(x, p, g, ct_p);
                            proof {
                                assert(RedBlackTree::repair_outcome(
                                    t0.nodes@,
                                    t0.root,
                                    x,
                                    self.nodes@,
                                    self.root,
                                ));
                            }
                        } else {
                            proof {
                                assert(ct_x == ct_p.spec_flip());
                                assert(RedBlackTree::pos_is(
                                    t0.node(xi).position,
                                    pi,
                                    ct_p.spec_flip(),
                                ));
                            }
                            self.repair_straighten(x, p, g, ct_p);
                            proof {
                                assert(RedBlackTree::repair_outcome(
                                    t0.nodes@,
                                    t0.root,
                                    x,
                                    self.nodes@,
                                    self.root,
                                ));
                            }
                        }
                    }
                }
            },
        }
    }
}

/// Cursor that points to an existing node in the tree.  The cursor owns the
/// tree for its lifetime, so only one cursor can be live at a time; the tree
/// is handed back by `into_tree`, `delete`, or by walking away from it.
pub struct NodeCursor {
    pub tree: RedBlackTree,
    pub node: usize,
}

/// Cursor that points to an empty slot in the tree, allowing insertion.
pub struct LeafCursor {
    pub tree: RedBlackTree,
    pub position: TreePosition,
}

/// A cursor that points either to an existing node of the tree or to an
/// empty slot.
pub enum TreeCursor {
    Node(NodeCursor),
    Leaf(LeafCursor),
}

impl NodeCursor {
    pub open spec fn wf(self) -> bool {
        &&& self.tree.wf()
        &&& self.tree.occupied(self.node as int)
    }

    pub open spec fn spec_key(self) -> u64 {
        self.tree.node(self.node as int).key
    }

    /// Return the key handle of the node at this cursor.
    pub fn key(&self) -> (k: u64)
        requires
            self.wf(),
        ensures
            k == self.spec_key(),
    {
        self.tree.read_node(self.node).key
    }

    /// Return the color of the node at this cursor.
    pub fn color(&self) -> (c: Color)
        requires
            self.wf(),
        ensures
            c == self.tree.node(self.node as int).color,
    {
        self.tree.read_node(self.node).color
    }

    /// Hand the tree back, ending this cursor.
    pub fn into_tree(self) -> (t: RedBlackTree)
        ensures
            t == self.tree,
    {
        self.tree
    }

    /// Convert into a cursor for the given child.
    fn child_cursor(self, ct: ChildType) -> (r: TreeCursor)
        requires
            self.wf(),
        ensures
            r.wf(),
            r.tree() == self.tree,
            match self.tree.node(self.node as int).spec_child(ct) {
                Some(c) => r matches TreeCursor::Node(nc) && nc.node == c,
                None => r matches TreeCursor::Leaf(lc) && lc.position == TreePosition::Child(
                    self.node,
                    ct,
                ),
            },
    {
        proof {
            assert(self.tree.links_ok_at(self.node as int));
        }
        let n = self.tree.read_node(self.node);
        match n.child(ct) {
            Some(c) => TreeCursor::Node(NodeCursor { tree: self.tree, node: c }),
            None => TreeCursor::Leaf(
                LeafCursor { tree: self.tree, position: TreePosition::Child(self.node, ct) },
            ),
        }
    }

    /// Convert into a cursor to the left child.
    pub fn left_child(self) -> (r: TreeCursor)
        requires
            self.wf(),
        ensures
            r.wf(),
            r.tree() == self.tree,
            match self.tree.node(self.node as int).left_child {
                Some(c) => r matches TreeCursor::Node(nc) && nc.node == c,
                None => r matches TreeCursor::Leaf(lc) && lc.position == TreePosition::Child(
                    self.node,
                    ChildType::Left,
                ),
            },
    {
        self.child_cursor(ChildType::Left)
    }

    /// Convert into a cursor for the right child.
    pub fn right_child(self) -> (r: TreeCursor)
        requires
            self.wf(),
        ensures
            r.wf(),
            r.tree() == self.tree,
            match self.tree.node(self.node as int).right_child {
                Some(c) => r matches TreeCursor::Node(nc) && nc.node == c,
                None => r matches TreeCursor::Leaf(lc) && lc.position == TreePosition::Child(
                    self.node,
                    ChildType::Right,
                ),
            },
    {
        self.child_cursor(ChildType::Right)
    }

    /// Convert into a cursor for the parent node.  At the root there is no
    /// parent, and the unchanged cursor is handed back as the error value.
    pub fn parent(self) -> (r: Result<NodeCursor, NodeCursor>)
        requires
            self.wf(),
        ensures
            match r {
                Ok(pc) => {
                    &&& pc.wf()
                    &&& pc.tree == self.tree
                    &&& self.tree.node(self.node as int).position matches TreePosition::Child(
                        p,
                        _,
                    ) && pc.node == p
                },
                Err(sc) => sc == self && self.tree.node(self.node as int).position is Root,
            },
    {
        proof {
            assert(self.tree.links_ok_at(self.node as int));
        }
        let n = self.tree.read_node(self.node);
        match n.position {
            TreePosition::Root => Err(self),
            TreePosition::Child(p, _) => Ok(NodeCursor { tree: self.tree, node: p }),
        }
    }

    /// The shapes this deletion supports without a rebalancing pass: any
    /// node with at most one child, except a childless black node below the
    /// root.  Removing that one would take a black node off its paths and no
    /// local step can repair it, so it is not attempted.  (A node below the
    /// root with exactly one child is always black over a red childless
    /// child, so splicing the child in, recolored black, restores every
    /// invariant.)
    pub open spec fn deletable(self) -> bool {
        let n = self.tree.node(self.node as int);
        if n.position is Root {
            n.left_child is None || n.right_child is None
        } else {
            ||| (n.left_child is None && n.right_child is None && n.color is Red)
            ||| (n.left_child is Some && n.right_child is None)
            ||| (n.left_child is None && n.right_child is Some)
        }
    }

    /// The child slot a one-child node hands its place to.
    pub open spec fn sole_child(self) -> usize {
        let n = self.tree.node(self.node as int);
        if n.left_child is Some {
            n.left_child.unwrap()
        } else {
            n.right_child.unwrap()
        }
    }

    /// Delete the node from the tree and remove its index entry.  The sole
    /// child (or empty slot) takes the deleted node's place, recolored black
    /// when it replaces a node; nothing else changes.  The tree is handed
    /// back.
    pub fn delete(self) -> (r: RedBlackTree)
        requires
            self.wf(),
            self.deletable(),
        ensures
            r.wf(),
            r.index@ == self.tree.index@.remove(self.spec_key()),
            r.nodes@.len() == self.tree.nodes@.len(),
            forall|m: int| r.occupied(m) <==> (self.tree.occupied(m) && m != self.node),
            forall|m: int| r.occupied(m) ==> r.node(m).key == self.tree.node(m).key,
            ({
                let n = self.tree.node(self.node as int);
                let nodes0 = self.tree.nodes@;
                let xi = self.node as int;
                match n.position {
                    TreePosition::Root => {
                        if n.left_child is None && n.right_child is None {
                            r.nodes@ == nodes0.update(xi, (NodeContainer { value: None }))
                                && r.root is None
                        } else {
                            let c = self.sole_child();
                            &&& r.nodes@ == nodes0.update(
                                xi,
                                (NodeContainer { value: None }),
                            ).update(
                                c as int,
                                (NodeContainer {
                                    value: Some(
                                        RedBlackTreeNode {
                                            position: TreePosition::Root,
                                            color: Color::Black,
                                            black_height: Ghost(1nat),
                                            ..self.tree.node(c as int)
                                        },
                                    ),
                                }),
                            )
                            &&& r.root == Some(c)
                        }
                    },
                    TreePosition::Child(p, ct) => {
                        if n.left_child is None && n.right_child is None {
                            &&& r.nodes@ == nodes0.update(
                                p as int,
                                (NodeContainer {
                                    value: Some(self.tree.node(p as int).with_child(ct, None)),
                                }),
                            ).update(xi, (NodeContainer { value: None }))
                            &&& r.root == self.tree.root
                        } else {
                            let c = self.sole_child();
                            &&& r.nodes@ == nodes0.update(
                                p as int,
                                (NodeContainer {
                                    value: Some(self.tree.node(p as int).with_child(ct, Some(c))),
                                }),
                            ).update(
                                c as int,
                                (NodeContainer {
                                    value: Some(
                                        RedBlackTreeNode {
                                            position: (TreePosition::Child(p, ct)),
                                            color: Color::Black,
                                            black_height: Ghost(1nat),
                                            ..self.tree.node(c as int)
                                        },
                                    ),
                                }),
                            ).update(xi, (NodeContainer { value: None }))
                            &&& r.root == self.tree.root
                        }
                    },
                }
            }),
    {
        broadcast use vstd::std_specs::hash::group_hash_axioms;

        let ghost t0 = self.tree;
        let ghost xi = self.node as int;
        let x = self.node;
        let mut tree = self.tree;
        proof {
            assert(t0.links_ok_at(xi));
            assert(t0.bh_ok_at(xi));
        }
        let xn = tree.read_node(x);
        tree.index.remove(&xn.key);
        match xn.position {
            TreePosition::Root => {
                let repl = match (xn.left_child, xn.right_child) {
                    (None, r2) => r2,
                    (l, None) => l,
                    _ => unreached(),
                };
                tree.clear_node(x);
                match repl {
                    None => {
                        tree.root = None;
                        proof {
                            RedBlackTree::lemma_delete_lone_root_wf(t0, tree, x);
                            RedBlackTree::lemma_index_remove(t0, tree, x);
                        }
                    },
                    Some(c) => {
                        proof {
                            assert(t0.occupied(c as int));
                            assert(c != x);
                        }
                        let mut cn = tree.read_node(c);
                        cn.position = TreePosition::Root;
                        cn.color = Color::Black;
                        cn.black_height = Ghost(1nat);
                        tree.write_node(c, cn);
                        tree.root = Some(c);
                        proof {
                            RedBlackTree::lemma_delete_root_child_wf(t0, tree, x, c);
                            RedBlackTree::lemma_index_remove(t0, tree, x);
                        }
                    },
                }
            },
            TreePosition::Child(p, ct) => {
                proof {
                    assert(t0.links_ok_at(p as int));
                    assert(t0.bh_ok_at(p as int));
                    assert(t0.colors_ok_at(xi));
                    assert(t0.colors_ok_at(p as int));
                    assert(p != x);
                }
                let repl = match (xn.left_child, xn.right_child) {
                    (None, None) => None,
                    (Some(c), None) => Some(c),
                    (None, Some(c)) => Some(c),
                    _ => unreached(),
                };
                match repl {
                    None => {
                        let mut pn = tree.read_node(p);
                        pn.set_child(ct, None);
                        tree.write_node(p, pn);
                        tree.clear_node(x);
                        proof {
                            RedBlackTree::lemma_delete_leaf_wf(t0, tree, x, p, ct);
                            RedBlackTree::lemma_index_remove(t0, tree, x);
                        }
                    },
                    Some(c) => {
                        proof {
                            assert(t0.occupied(c as int));
                            assert(t0.links_ok_at(c as int));
                            assert(t0.bh_ok_at(c as int));
                            assert(c != x && c != p);
                        }
                        let mut pn = tree.read_node(p);
                        pn.set_child(ct, Some(c));
                        tree.write_node(p, pn);
                        let mut cn = tree.read_node(c);
                        cn.position = TreePosition::Child(p, ct);
                        cn.color = Color::Black;
                        cn.black_height = Ghost(1nat);
                        tree.write_node(c, cn);
                        tree.clear_node(x);
                        proof {
                            RedBlackTree::lemma_delete_splice_wf(t0, tree, x, p, ct, c);
                            RedBlackTree::lemma_index_remove(t0, tree, x);
                        }
                    },
                }
            },
        }
        tree
    }
}

impl LeafCursor {
    pub open spec fn wf(self) -> bool {
        &&& self.tree.wf()
        &&& match self.position {
            TreePosition::Root => self.tree.root is None,
            TreePosition::Child(p, ct) => self.tree.occupied(p as int) && self.tree.node(
                p as int,
            ).spec_child(ct) is None,
        }
    }

    /// Hand the tree back, ending this cursor.
    pub fn into_tree(self) -> (t: RedBlackTree)
        ensures
            t == self.tree,
    {
        self.tree
    }

    /// Insert the key handle into this empty slot: a new red node is placed
    /// there, registered in the index, and the tree is repaired upward.
    /// Consumes this `LeafCursor` and returns a `NodeCursor` to the inserted
    /// node.
    #[verifier::rlimit(100)]
    pub fn insert(self, key: u64) -> (r: NodeCursor)
        requires
            self.wf(),
            !self.tree.index@.contains_key(key),
        ensures
            r.wf(),
            r.spec_key() == key,
            r.node == self.tree.nodes@.len(),
            r.tree.index@ == self.tree.index@.insert(key, r.node),
            r.tree.nodes@.len() == self.tree.nodes@.len() + 1,
            forall|m: int|
                r.tree.occupied(m) <==> (self.tree.occupied(m) || m == self.tree.nodes@.len()),
            forall|m: int|
                self.tree.occupied(m) ==> r.tree.node(m).key == self.tree.node(m).key,
            ({
                let nodes0 = self.tree.nodes@;
                let fresh = RedBlackTreeNode {
                    key,
                    color: Color::Red,
                    position: self.position,
                    left_child: None,
                    right_child: None,
                    black_height: Ghost(0nat),
                };
                let pushed = nodes0.push((NodeContainer { value: Some(fresh) }));
                let placed = match self.position {
                    TreePosition::Root => pushed,
                    TreePosition::Child(p, ct) => pushed.update(
                        p as int,
                        (NodeContainer {
                            value: Some(
                                RedBlackTree::seq_node(nodes0, p as int).with_child(
                                    ct,
                                    Some(r.node),
                                ),
                            ),
                        }),
                    ),
                };
                let placed_root = match self.position {
                    TreePosition::Root => Some(r.node),
                    TreePosition::Child(_, _) => self.tree.root,
                };
                RedBlackTree::repair_outcome(
                    placed,
                    placed_root,
                    r.node,
                    r.tree.nodes@,
                    r.tree.root,
                )
            }),
    {
        broadcast use vstd::std_specs::hash::group_hash_axioms;

        let ghost t0 = self.tree;
        let LeafCursor { mut tree, position } = self;
        let slot = tree.nodes.len();
        let ghost si = slot as int;
        let node = RedBlackTreeNode {
            key,
            color: Color::Red,
            position,
            left_child: None,
            right_child: None,
            black_height: Ghost(0nat),
        };
        tree.nodes.push(NodeContainer { value: Some(node) });
        match position {
            TreePosition::Root => {
                tree.root = Some(slot);
            },
            TreePosition::Child(p, ct) => {
                proof {
                    assert(t0.links_ok_at(p as int));
                }
                let mut pn = tree.read_node(p);
                pn.set_child(ct, Some(slot));
                tree.write_node(p, pn);
            },
        }
        tree.index.insert(key, slot);
        proof {
            let t1 = tree;
            assert(forall|m: int| t0.occupied(m) ==> m != si);
            assert(forall|m: int|
                t1.occupied(m) <==> (t0.occupied(m) || m == si));
            assert(forall|m: int|
                t0.occupied(m) && !(position matches TreePosition::Child(p, _) && p == m)
                    ==> t1.node(m) == t0.node(m));
            assert(t1.node(si) == node);
            assert forall|m: int| t1.occupied(m) implies t1.links_ok_at(m) by {
                if m != si {
                    assert(t0.occupied(m));
                    assert(t0.links_ok_at(m));
                    match t0.node(m).left_child {
                        Some(l) => {
                            assert(t0.links_ok_at(l as int));
                        },
                        None => {},
                    }
                    match t0.node(m).right_child {
                        Some(r2) => {
                            assert(t0.links_ok_at(r2 as int));
                        },
                        None => {},
                    }
                    match t0.node(m).position {
                        TreePosition::Child(pm, _) => {
                            assert(t0.links_ok_at(pm as int));
                        },
                        TreePosition::Root => {},
                    }
                }
            }
            assert(t1.links_ok());
            assert forall|m: int| t1.occupied(m) implies t1.index@.contains_key(t1.node(m).key)
                && t1.index@[t1.node(m).key] == m by {
                if m != si {
                    assert(t0.occupied(m));
                }
            }
            assert forall|k2: u64| t1.index@.contains_key(k2) implies t1.occupied(
                t1.index@[k2] as int,
            ) && t1.node(t1.index@[k2] as int).key == k2 by {
                if k2 != key {
                    assert(t0.index@.contains_key(k2));
                }
            }
            assert forall|m: int| t1.occupied(m) implies t1.bh_ok_at(m) by {
                if m != si {
                    assert(t0.occupied(m));
                    assert(t0.bh_ok_at(m));
                    assert(t0.links_ok_at(m));
                    match t0.node(m).left_child {
                        Some(l) => {
                            assert(t0.links_ok_at(l as int));
                        },
                        None => {},
                    }
                    match t0.node(m).right_child {
                        Some(r2) => {
                            assert(t0.links_ok_at(r2 as int));
                        },
                        None => {},
                    }
                }
            }
            assert forall|m: int| t1.occupied(m) implies t1.red_ok_except_at(m, si) by {
                if m != si {
                    assert(t0.occupied(m));
                    assert(t0.colors_ok_at(m));
                    assert(t0.links_ok_at(m));
                }
            }
            assert(t1.repair_inv(si));
            let fresh = RedBlackTreeNode {
                key,
                color: Color::Red,
                position,
                left_child: None,
                right_child: None,
                black_height: Ghost(0nat),
            };
            let pushed = t0.nodes@.push((NodeContainer { value: Some(fresh) }));
            match position {
                TreePosition::Root => {
                    assert(t1.nodes@ == pushed);
                    assert(t1.root == Some(slot));
                },
                TreePosition::Child(p, ct) => {
                    assert(t1.nodes@ == pushed.update(
                        p as int,
                        (NodeContainer {
                            value: Some(
                                RedBlackTree::seq_node(t0.nodes@, p as int).with_child(
                                    ct,
                                    Some(slot),
                                ),
                            ),
                        }),
                    ));
                    assert(t1.root == t0.root);
                },
            }
        }
        tree.repair_tree(slot);
        NodeCursor { tree, node: slot }
    }
}

impl TreeCursor {
    pub open spec fn tree(self) -> RedBlackTree {
        match self {
            TreeCursor::Node(c) => c.tree,
            TreeCursor::Leaf(c) => c.tree,
        }
    }

    pub open spec fn wf(self) -> bool {
        match self {
            TreeCursor::Node(c) => c.wf(),
            TreeCursor::Leaf(c) => c.wf(),
        }
    }

    /// Extract a `NodeCursor` from this.  The cursor must point at a node.
    pub fn unwrap_node(self) -> (r: NodeCursor)
        requires
            self matches TreeCursor::Node(_),
        ensures
            self matches TreeCursor::Node(c) && r == c,
    {
        match self {
            TreeCursor::Node(n) => n,
            TreeCursor::Leaf(_) => unreached(),
        }
    }

    /// Extract a `LeafCursor` from this.  The cursor must point at an empty
    /// slot.
    pub fn unwrap_leaf(self) -> (r: LeafCursor)
        requires
            self matches TreeCursor::Leaf(_),
        ensures
            self matches TreeCursor::Leaf(c) && r == c,
    {
        match self {
            TreeCursor::Leaf(n) => n,
            TreeCursor::Node(_) => unreached(),
        }
    }

    /// Construct a `TreeCursor::Node` for an occupied slot.
    fn from_node(tree: RedBlackTree, node: usize) -> (r: TreeCursor)
        requires
            tree.wf(),
            tree.occupied(node as int),
        ensures
            r matches TreeCursor::Node(nc) && nc.tree == tree && nc.node == node,
            r.wf(),
    {
        TreeCursor::Node(NodeCursor { tree, node })
    }

    /// Construct a `TreeCursor::Leaf` for an empty position.
    fn leaf_from_position(tree: RedBlackTree, position: TreePosition) -> (r: TreeCursor)
        requires
            tree.wf(),
            match position {
                TreePosition::Root => tree.root is None,
                TreePosition::Child(p, ct) => tree.occupied(p as int) && tree.node(
                    p as int,
                ).spec_child(ct) is None,
            },
        ensures
            r matches TreeCursor::Leaf(lc) && lc.tree == tree && lc.position == position,
            r.wf(),
    {
        TreeCursor::Leaf(LeafCursor { tree, position })
    }
}

/// The bare shape of a subtree: which key sits where.  It serves to state
/// structural laws about rotations independently of slot numbers.
pub enum TreeShape {
    Leaf,
    Node(u64, Box<TreeShape>, Box<TreeShape>),
}

pub open spec fn inorder_keys(s: TreeShape) -> Seq<u64>
    decreases s,
{
    match s {
        TreeShape::Leaf => Seq::empty(),
        TreeShape::Node(k, l, r) => inorder_keys(*l) + seq![k] + inorder_keys(*r),
    }
}

/// The shape a rotation produces: the child on the side opposite the
/// direction takes the top place, and its inner subtree re-attaches to the
/// demoted node, exactly as `RedBlackTree::rotate` rewires the slots.  A
/// shape without that child is returned unchanged.
pub open spec fn rotate_shape(s: TreeShape, direction: ChildType) -> TreeShape {
    match direction {
        ChildType::Right => match s {
            TreeShape::Node(nk, l, r) => match *l {
                TreeShape::Node(ck, ll, lr) => TreeShape::Node(
                    ck,
                    ll,
                    Box::new(TreeShape::Node(nk, lr, r)),
                ),
                TreeShape::Leaf => s,
            },
            TreeShape::Leaf => s,
        },
        ChildType::Left => match s {
            TreeShape::Node(nk, l, r) => match *r {
                TreeShape::Node(ck, rl, rr) => TreeShape::Node(
                    ck,
                    Box::new(TreeShape::Node(nk, l, rl)),
                    rr,
                ),
                TreeShape::Leaf => s,
            },
            TreeShape::Leaf => s,
        },
    }
}

/// A rotation in either direction keeps the in-order sequence of keys of the
/// rotated subtree unchanged: it is a pure structural transform.
pub proof fn lemma_rotation_preserves_inorder(s: TreeShape, direction: ChildType)
    ensures
        inorder_keys(rotate_shape(s, direction)) == inorder_keys(s),
{
    match direction {
        ChildType::Right => match s {
            TreeShape::Node(nk, l, r) => match *l {
                TreeShape::Node(ck, ll, lr) => {
                    assert(inorder_keys(*l) == inorder_keys(*ll) + seq![ck] + inorder_keys(*lr));
                    assert(inorder_keys(TreeShape::Node(nk, lr, r)) == inorder_keys(*lr)
                        + seq![nk] + inorder_keys(*r));
                    assert(inorder_keys(rotate_shape(s, direction)) == inorder_keys(*ll)
                        + seq![ck] + inorder_keys(TreeShape::Node(nk, lr, r)));
                    assert(inorder_keys(rotate_shape(s, direction)) =~= inorder_keys(s));
                },
                TreeShape::Leaf => {},
            },
            TreeShape::Leaf => {},
        },
        ChildType::Left => match s {
            TreeShape::Node(nk, l, r) => match *r {
                TreeShape::Node(ck, rl, rr) => {
                    assert(inorder_keys(*r) == inorder_keys(*rl) + seq![ck] + inorder_keys(*rr));
                    assert(inorder_keys(TreeShape::Node(nk, l, rl)) == inorder_keys(*l)
                        + seq![nk] + inorder_keys(*rl));
                    assert(inorder_keys(rotate_shape(s, direction)) == inorder_keys(
                        TreeShape::Node(nk, l, rl),
                    ) + seq![ck] + inorder_keys(*rr));
                    assert(inorder_keys(rotate_shape(s, direction)) =~= inorder_keys(s));
                },
                TreeShape::Leaf => {},
            },
            TreeShape::Leaf => {},
        },
    }
}

} // verus!
