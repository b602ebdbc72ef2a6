//! Tree nodes that carry their own links.
//!
//! A node holds what it stands for, its level, and the indices of its parent
//! and of its children in whatever collection keeps the nodes.
use crate::text::{decimal, numbered};
use vstd::prelude::*;

verus! {

/// What a tree node stands for: a sink, a buffer or a tap point, each named
/// by its index.
#[derive(Clone, Copy, Debug, PartialEq, Eq, Structural)]
pub enum NodeData {
    Sink(usize),
    Buffer(usize),
    Dot(usize),
}

/// A node of the tree.
#[derive(Debug, PartialEq, Eq)]
pub struct TreeNode {
    /// The indices of the children.
    pub child: Vec<usize>,
    /// The index of the parent, if there is one.
    pub parent: Option<usize>,
    /// What the node stands for.
    pub node_data: NodeData,
    /// The level of the node.
    pub level: u8,
}

/// The label of a node: `n_s`, `n_b` or `n_d` for a sink, a buffer or a tap
/// point, followed by the index in decimal.
pub open spec fn label_of(data: NodeData) -> Seq<char> {
    match data {
        NodeData::Sink(i) => seq!['n', '_', 's'] + decimal(i as nat),
        NodeData::Buffer(i) => seq!['n', '_', 'b'] + decimal(i as nat),
        NodeData::Dot(i) => seq!['n', '_', 'd'] + decimal(i as nat),
    }
}

impl TreeNode {
    /// A node for the sink `idx`, at level 0, without parent or children.
    pub fn new_sink_node(idx: usize) -> (node: Self)
        ensures
            node.node_data == NodeData::Sink(idx),
            node.child@ == Seq::<usize>::empty(),
            node.parent is None,
            node.level == 0,
    {
        TreeNode { node_data: NodeData::Sink(idx), child: Vec::new(), parent: None, level: 0 }
    }

    /// A node for the tap point `idx`, at level 0, without parent or
    /// children.
    pub fn new_dot_node(idx: usize) -> (node: Self)
        ensures
            node.node_data == NodeData::Dot(idx),
            node.child@ == Seq::<usize>::empty(),
            node.parent is None,
            node.level == 0,
    {
        TreeNode { node_data: NodeData::Dot(idx), child: Vec::new(), parent: None, level: 0 }
    }

    /// The index of the tap point, if the node stands for one.
    pub fn get_dot_node_data(&self) -> (r: Option<usize>)
        ensures
            r == match self.node_data {
                NodeData::Dot(u) => Some(u),
                _ => None,
            },
    {
        if let NodeData::Dot(u) = self.node_data {
            Some(u)
        } else {
            None
        }
    }

    /// Makes the node stand for the buffer `idx`. Its links and its level
    /// stay.
    pub fn insert_buffer(&mut self, idx: usize)
        ensures
            final(self).node_data == NodeData::Buffer(idx),
            final(self).child == old(self).child,
            final(self).parent == old(self).parent,
            final(self).level == old(self).level,
    {
        self.node_data = NodeData::Buffer(idx);
    }

    /// The label of the node.
    pub fn label(&self) -> (s: String)
        ensures
            s@ == label_of(self.node_data),
    {
        proof {
            reveal_strlit("n_s");
            reveal_strlit("n_b");
            reveal_strlit("n_d");
        }
        match self.node_data {
            NodeData::Sink(i) => {
                assert("n_s"@ =~= seq!['n', '_', 's']);
                numbered("n_s", i)
            },
            NodeData::Buffer(i) => {
                assert("n_b"@ =~= seq!['n', '_', 'b']);
                numbered("n_b", i)
            },
            NodeData::Dot(i) => {
                assert("n_d"@ =~= seq!['n', '_', 'd']);
                numbered("n_d", i)
            },
        }
    }

    /// Whether the node is a leaf: whether it stands for a sink.
    pub fn if_leaf_node(&self) -> (r: bool)
        ensures
            r == (self.node_data is Sink),
    {
        if let NodeData::Sink(_) = self.node_data {
            true
        } else {
            false
        }
    }
}

} // verus!
