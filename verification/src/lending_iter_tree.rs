//! A small ordered tree walked by a probing cursor.
//!
//! The cursor carries a probe value and, on each step, descends into the
//! left child when the probe is smaller than it, otherwise into the right
//! child when the probe is larger than it, handing the probe back for as
//! long as it can move.

use vstd::prelude::*;

verus! {

/// One tree node with its optional owned children.
pub struct TreeNode {
    pub value: i64,
    pub left: Option<Box<TreeNode>>,
    pub right: Option<Box<TreeNode>>,
}

/// A tree addressed by its optional root.
pub struct Tree {
    pub root: Option<Box<TreeNode>>,
}

/// A cursor into a tree: the node it stands on and the probe it compares
/// children against.
pub struct NodeIter<'a> {
    pub node: &'a TreeNode,
    pub probe: i64,
}

impl TreeNode {
    /// A leaf holding the given value.
    pub fn new(value: i64) -> (n: Self)
        ensures
            n.value == value,
            n.left is None,
            n.right is None,
    {
        TreeNode { value, left: None, right: None }
    }
}

impl Tree {
    /// An empty tree.
    pub fn new() -> (t: Self)
        ensures
            t.root is None,
    {
        Tree { root: None }
    }

    /// A cursor standing on the root, probing with `item`.  An empty tree
    /// has nothing to stand on, so a root is required.
    pub fn iter(&self, item: i64) -> (it: NodeIter<'_>)
        requires
            self.root is Some,
        ensures
            *it.node == *self.root.unwrap(),
            it.probe == item,
    {
        match &self.root {
            Some(b) => NodeIter { node: &**b, probe: item },
            None => unreached(),
        }
    }
}

impl<'a> NodeIter<'a> {
    /// One descent step: into the left child when the probe is below it,
    /// else into the right child when the probe is above it; the probe is
    /// handed back on every move, and nothing once the cursor is stuck.
    pub fn next(&mut self) -> (r: Option<i64>)
        ensures
            ({
                let nd = *old(self).node;
                let probe = old(self).probe;
                let goes_left = nd.left is Some && probe < nd.left.unwrap().value;
                let goes_right = !goes_left && nd.right is Some && probe > nd.right.unwrap().value;
                &&& goes_left ==> r == Some(probe) && final(self).probe == probe
                    && *final(self).node == *nd.left.unwrap()
                &&& goes_right ==> r == Some(probe) && final(self).probe == probe
                    && *final(self).node == *nd.right.unwrap()
                &&& !goes_left && !goes_right ==> r is None && *final(self) == *old(self)
            }),
    {
        let nd = self.node;
        if let Some(l) = &nd.left {
            if self.probe < l.value {
                self.node = &**l;
                return Some(self.probe);
            }
        }
        if let Some(rc) = &nd.right {
            if self.probe > rc.value {
                self.node = &**rc;
                return Some(self.probe);
            }
        }
        None
    }
}

} // verus!
