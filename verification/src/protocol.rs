//! The messages by which a client rewrites a shape tree.

use vstd::prelude::*;
use crate::scalar::{Scalar, Vec2, Vec3, Vec4};

verus! {

/// A leaf of the tree: something to draw.
#[derive(Clone, Debug, PartialEq)]
pub enum Shape {
    /// Draws nothing.
    Empty,
    /// A circle around the origin.
    Circle { radius: Scalar },
    /// A rectangle between two corners.
    Rectangle { min: Vec2, max: Vec2 },
    /// A rectangle between two corners with a radius for each corner.
    RoundedRectangle { min: Vec2, max: Vec2, radii: Vec4 },
    /// A line of text in a named font.
    Text { content: String, font: String },
}

/// How the children of a stroke operation are painted.
#[derive(Clone, Debug, PartialEq)]
pub enum Stroke {
    /// One colour.
    Solid { color: Vec3 },
}

/// A node with one child that transforms or styles that child.
#[derive(Clone, Debug, PartialEq)]
pub enum Operation {
    /// Paints the child with a stroke.
    Stroke(Stroke),
    /// Moves the child.
    Translate { offset: Vec2 },
    /// Turns the child about the origin, by an angle in radians.
    Rotation { angle: Scalar },
    /// Scales the child by the same factor on both axes.
    Scale { scale: Scalar },
    /// Draws the child into a layer of the given opacity.
    Opacity { opacity: Scalar },
    /// Draws the child into a layer that is then blurred.
    Blur { radius: Scalar },
}

/// A subtree to allocate.
#[derive(Debug)]
pub enum NewNode {
    Shape(Shape),
    Operation { operation: Operation, child: Box<NewNode> },
    Group { children: Vec<NewNode> },
}

impl NewNode {
    /// The number of nodes of the subtree.
    pub open spec fn count(self) -> nat
        decreases self,
    {
        match self {
            NewNode::Shape(_) => 1,
            NewNode::Operation { operation, child } => 1 + child.count(),
            NewNode::Group { children } => 1 + Self::count_all(children@),
        }
    }

    /// The number of nodes of several subtrees together.
    pub open spec fn count_all(nodes: Seq<NewNode>) -> nat
        decreases nodes,
    {
        if nodes.len() == 0 {
            0
        } else {
            Self::count_all(nodes.drop_last()) + nodes.last().count()
        }
    }
}

/// The nodes of the first `i + 1` subtrees are those of the first `i` and
/// those of the next one.
pub(crate) proof fn lemma_count_step(nodes: Seq<NewNode>, i: int)
    requires
        0 <= i < nodes.len(),
    ensures
        NewNode::count_all(nodes.take(i + 1)) == NewNode::count_all(nodes.take(i)) + nodes[i].count(),
{
    assert(nodes.take(i + 1).drop_last() =~= nodes.take(i));
}

impl NewNode {
    /// Takes one unit off `budget` for each node of the subtree. Returns
    /// what is left, or nothing where the budget does not cover the subtree.
    pub fn spend(&self, budget: u64) -> (left: Option<u64>)
        ensures
            match left {
                Some(rest) => self.count() + rest == budget,
                None => self.count() > budget,
            },
        decreases self,
    {
        if budget == 0 {
            return None;
        }
        match self {
            NewNode::Shape(shape) => Some(budget - 1),
            NewNode::Operation { operation, child } => child.spend(budget - 1),
            NewNode::Group { children } => {
                let mut left: u64 = budget - 1;
                let mut i: usize = 0;
                proof {
                    assert(children@.take(0) =~= Seq::<NewNode>::empty());
                }
                while i < children.len()
                    invariant
                        i <= children.len(),
                        *self == (NewNode::Group { children: *children }),
                        forall|j: int|
                            0 <= j < children@.len() ==> decreases_to!(*self => children@[j]),
                        1 + NewNode::count_all(children@.take(i as int)) + left == budget,
                    decreases children.len() - i,
                {
                    proof {
                        lemma_count_step(children@, i as int);
                        crate::grow::lemma_count_prefix(children@, i as int);
                    }
                    match children[i].spend(left) {
                        None => {
                            return None;
                        },
                        Some(rest) => {
                            left = rest;
                        },
                    }
                    i += 1;
                }
                proof {
                    assert(children@.take(i as int) =~= children@);
                }
                Some(left)
            },
        }
    }
}

/// One child of the node that an update writes.
#[derive(Debug)]
pub enum ChildUpdate {
    /// Keeps a node that is a child of the target now, by its index.
    KeepIndex(u32),
    /// Allocates a subtree.
    NewNode(NewNode),
}

impl ChildUpdate {
    /// The number of nodes that the entry allocates.
    pub open spec fn count(self) -> nat {
        match self {
            ChildUpdate::KeepIndex(_) => 0,
            ChildUpdate::NewNode(node) => node.count(),
        }
    }

    /// The number of nodes that several entries allocate together.
    pub open spec fn count_all(entries: Seq<ChildUpdate>) -> nat
        decreases entries.len(),
    {
        if entries.len() == 0 {
            0
        } else {
            Self::count_all(entries.drop_last()) + entries.last().count()
        }
    }
}

/// What an update writes to its target.
#[derive(Debug)]
pub enum NodeContent {
    Shape(Shape),
    Operation { operation: Operation, child: ChildUpdate },
    /// A group; a list that is absent is an empty list.
    Group { new_children: Option<Vec<ChildUpdate>> },
}

impl NodeContent {
    /// The children that the content names, in their order.
    pub open spec fn entries(self) -> Seq<ChildUpdate> {
        match self {
            NodeContent::Shape(_) => Seq::empty(),
            NodeContent::Operation { operation, child } => seq![child],
            NodeContent::Group { new_children: Some(children) } => children@,
            NodeContent::Group { new_children: None } => Seq::empty(),
        }
    }

    /// The number of nodes that the content allocates.
    pub open spec fn count(self) -> nat {
        ChildUpdate::count_all(self.entries())
    }
}

impl ChildUpdate {
    /// Takes one unit off `budget` for each node that the entry allocates.
    /// Returns what is left, or nothing where the budget does not cover them.
    pub fn spend(&self, budget: u64) -> (left: Option<u64>)
        ensures
            match left {
                Some(rest) => self.count() + rest == budget,
                None => self.count() > budget,
            },
    {
        match self {
            ChildUpdate::KeepIndex(index) => Some(budget),
            ChildUpdate::NewNode(node) => node.spend(budget),
        }
    }
}

impl NodeContent {
    /// Takes one unit off `budget` for each node that the content
    /// allocates. Returns what is left, or nothing where the budget does not
    /// cover them.
    pub fn spend(&self, budget: u64) -> (left: Option<u64>)
        ensures
            match left {
                Some(rest) => self.count() + rest == budget,
                None => self.count() > budget,
            },
    {
        match self {
            NodeContent::Shape(shape) => {
                proof {
                    assert(ChildUpdate::count_all(self.entries()) == 0);
                }
                Some(budget)
            },
            NodeContent::Operation { operation, child } => {
                proof {
                    assert(seq![*child].drop_last() =~= Seq::<ChildUpdate>::empty());
                    assert(ChildUpdate::count_all(seq![*child].drop_last()) == 0);
                }
                child.spend(budget)
            },
            NodeContent::Group { new_children: None } => {
                proof {
                    assert(ChildUpdate::count_all(self.entries()) == 0);
                }
                Some(budget)
            },
            NodeContent::Group { new_children: Some(children) } => {
                let mut left: u64 = budget;
                let mut i: usize = 0;
                proof {
                    assert(children@.take(0) =~= Seq::<ChildUpdate>::empty());
                }
                while i < children.len()
                    invariant
                        i <= children.len(),
                        *self == (NodeContent::Group { new_children: Some(*children) }),
                        ChildUpdate::count_all(children@.take(i as int)) + left == budget,
                    decreases children.len() - i,
                {
                    proof {
                        crate::update::lemma_entries_prefix(children@, i as int);
                    }
                    match children[i].spend(left) {
                        None => {
                            return None;
                        },
                        Some(rest) => {
                            left = rest;
                        },
                    }
                    i += 1;
                }
                proof {
                    assert(children@.take(i as int) =~= children@);
                }
                Some(left)
            },
        }
    }
}

/// Rewrites one node of a tree.
#[derive(Debug)]
pub struct NodeUpdate {
    /// The index of the node to rewrite.
    pub target: u32,
    pub content: NodeContent,
}

/// Rewrites several nodes of one tree, in order.
#[derive(Debug)]
pub struct TreeUpdate {
    /// The tree to rewrite.
    pub target: u32,
    pub updates: Vec<NodeUpdate>,
}

/// The answer to a `NodeUpdate`.
#[derive(Debug, PartialEq, Eq)]
pub struct NodeUpdateResponse {
    /// The indices of the nodes that the update allocated, in the order of
    /// their allocation: the nodes of a subtree before its root.
    pub new_nodes: Vec<u32>,
}

impl From<NewNode> for ChildUpdate {
    /// The entry that allocates the subtree.
    fn from(new_node: NewNode) -> (entry: ChildUpdate) {
        ChildUpdate::NewNode(new_node)
    }
}

impl vstd::std_specs::convert::FromSpecImpl<NewNode> for ChildUpdate {
    open spec fn obeys_from_spec() -> bool {
        true
    }

    open spec fn from_spec(new_node: NewNode) -> ChildUpdate {
        ChildUpdate::NewNode(new_node)
    }
}

impl From<Vec<ChildUpdate>> for NodeContent {
    /// A group with the given children.
    fn from(children: Vec<ChildUpdate>) -> (content: NodeContent) {
        NodeContent::Group { new_children: Some(children) }
    }
}

impl vstd::std_specs::convert::FromSpecImpl<Vec<ChildUpdate>> for NodeContent {
    open spec fn obeys_from_spec() -> bool {
        true
    }

    open spec fn from_spec(children: Vec<ChildUpdate>) -> NodeContent {
        NodeContent::Group { new_children: Some(children) }
    }
}

/// The entries that allocate the given subtrees, in their order.
pub open spec fn all_new(children: Seq<NewNode>) -> Seq<ChildUpdate> {
    Seq::new(children.len(), |i: int| ChildUpdate::NewNode(children[i]))
}

impl From<Vec<NewNode>> for NodeContent {
    /// A group whose children are all new.
    fn from(children: Vec<NewNode>) -> (content: NodeContent)
        ensures
            content is Group,
            content.entries() == all_new(children@),
    {
        let ghost wanted = children@;
        let mut children = children;
        let mut entries: Vec<ChildUpdate> = Vec::new();
        let mut i: usize = 0;
        while i < children.len()
            invariant
                i <= children.len(),
                children@.len() == wanted.len(),
                forall|j: int| i <= j < wanted.len() ==> children@[j] == wanted[j],
                entries@ == all_new(wanted.take(i as int)),
            decreases children.len() - i,
        {
            let mut taken = NewNode::Shape(Shape::Empty);
            std::mem::swap(&mut children[i], &mut taken);
            entries.push(ChildUpdate::NewNode(taken));
            assert(entries@ =~= all_new(wanted.take(i + 1)));
            i += 1;
        }
        assert(wanted.take(i as int) =~= wanted);
        NodeContent::Group { new_children: Some(entries) }
    }
}

impl vstd::std_specs::convert::FromSpecImpl<Vec<NewNode>> for NodeContent {
    open spec fn obeys_from_spec() -> bool {
        false
    }

    open spec fn from_spec(children: Vec<NewNode>) -> NodeContent {
        NodeContent::Group { new_children: None }
    }
}

} // verus!
