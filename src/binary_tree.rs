use vstd::prelude::*;

verus! {

/// Which child of a node a subtree becomes.
pub enum Side {
    Right,
    Left,
}

/// A node of a binary tree: a value and at most two subtrees.
#[derive(Debug)]
pub struct TreeNode<T> {
    pub left: Option<Box<TreeNode<T>>>,
    pub right: Option<Box<TreeNode<T>>>,
    pub value: T,
}

impl<T> TreeNode<T> {
    /// A leaf holding `value`.
    pub fn new(value: T) -> (t: Self)
        ensures
            t.value == value,
            t.left is None,
            t.right is None,
    {
        TreeNode { left: None, right: None, value }
    }

    /// Makes `tree` the child of this node on `side`, replacing any subtree
    /// that was there; the other child and the value stay.
    pub fn add(&mut self, tree: Box<TreeNode<T>>, side: Side)
        ensures
            final(self).value == old(self).value,
            side is Right ==> final(self).right == Some(tree) && final(self).left == old(self).left,
            side is Left ==> final(self).left == Some(tree) && final(self).right == old(self).right,
    {
        match side {
            Side::Right => {
                self.right = Some(tree);
            },
            Side::Left => {
                self.left = Some(tree);
            },
        }
    }
}

} // verus!
