//! An indexed, order-preserving, self-balancing binary tree, driven by
//! caller-side descent: the tree never compares keys itself.  Every
//! structural operation is verified to keep the red-black coloring rules,
//! the recorded positions, and the key-handle index consistent.

pub mod expanding_vec;
pub mod red_black_tree;
