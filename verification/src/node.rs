//! The nodes that a tree owns.

use vstd::prelude::*;
use crate::aabb::Aabb;
use crate::protocol::{Operation, Shape};

verus! {

/// What a node is, with its children by index.
#[derive(Clone, Debug, PartialEq)]
pub enum NodeKind {
    Shape(Shape),
    Operation { operation: Operation, child: usize },
    Group(Vec<usize>),
}

impl NodeKind {
    /// The indices of the children, in their order.
    pub open spec fn children(self) -> Seq<usize> {
        match self {
            NodeKind::Shape(_) => Seq::empty(),
            NodeKind::Operation { operation, child } => seq![child],
            NodeKind::Group(children) => children@,
        }
    }
}

/// A node of a tree.
#[derive(Clone, Debug, PartialEq)]
pub struct Node {
    pub kind: NodeKind,
    /// Set, while an update runs, on the nodes that were children of its
    /// target when it began.
    pub owned: bool,
    /// Set, while an update runs, on the children that it has kept.
    pub reused: bool,
    /// The box around the node and its children, as it was when the node was
    /// made.
    pub aabb: Aabb,
}

impl Node {
    /// A node of the given kind and box that carries no update flag.
    pub open spec fn new_spec(kind: NodeKind, aabb: Aabb) -> Node {
        Node { kind, owned: false, reused: false, aabb }
    }

    /// A node of the given kind and box that carries no update flag.
    pub fn new(kind: NodeKind, aabb: Aabb) -> (node: Node)
        ensures
            node == Self::new_spec(kind, aabb),
    {
        Node { kind, owned: false, reused: false, aabb }
    }

    /// What the node is.
    pub fn get_kind(&self) -> (kind: &NodeKind)
        ensures
            *kind == self.kind,
    {
        &self.kind
    }
}

} // verus!
