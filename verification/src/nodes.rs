//! The two node shapes stored in the arena: the sparse one carries
//! explicit child handles, the complete one carries data only and leaves
//! all relationships to position arithmetic.

use vstd::prelude::*;
use crate::arena::Id;

verus! {

/// A node of the sparse (linked) tree: its aggregate and the handles of
/// its children. A node with both links absent is a leaf.
#[derive(Debug)]
pub struct PhysicalIdBinaryTreeNode {
    pub data: u64,
    pub left: Option<Id>,
    pub right: Option<Id>,
}

impl PhysicalIdBinaryTreeNode {
    /// A leaf holding one value and no links.
    pub fn leaf(value: &u64) -> (r: Self)
        ensures
            r.data == *value,
            r.left is None,
            r.right is None,
    {
        PhysicalIdBinaryTreeNode { data: *value, left: None, right: None }
    }

    /// A node with no children is a leaf.
    pub fn is_leaf(&self) -> (r: bool)
        ensures
            r == (self.left is None && self.right is None),
    {
        self.left.is_none() && self.right.is_none()
    }
}

/// A node of the complete tree: the aggregate of its leaf block and
/// nothing else.
#[derive(Debug)]
pub struct CompleteBinaryTreeNode {
    pub data: u64,
}

impl CompleteBinaryTreeNode {
    /// A leaf node holding one value.
    pub fn new(value: &u64) -> (r: Self)
        ensures
            r.data == *value,
    {
        CompleteBinaryTreeNode { data: *value }
    }
}

impl Default for CompleteBinaryTreeNode {
    /// A padding node holding the combinator's identity.
    fn default() -> (r: Self)
        ensures
            r.data == 0,
    {
        CompleteBinaryTreeNode { data: 0 }
    }
}

} // verus!
