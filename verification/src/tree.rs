//! The shape tree: an arena of nodes with stable indices.

use vstd::prelude::*;
use crate::aabb::Aabb;
use crate::arena::{slab_entries, slab_get, slab_insert, slab_new, slab_released};
use crate::forest::{bounded, forest, issue, settled, within, Depths, Nodes, Parents};
use crate::node::{Node, NodeKind};
use crate::protocol::{NodeContent, Shape};

verus! {

/// A shape tree. The node at index 0 is its root.
pub struct Tree {
    pub(crate) nodes: slab::Slab<Node>,
    pub(crate) parents: Ghost<Parents>,
    pub(crate) depths: Ghost<Depths>,
    pub(crate) limit: Ghost<nat>,
    pub(crate) slots: u64,
}

impl View for Tree {
    type V = Nodes;

    /// The arena: the nodes by their indices.
    open(crate) spec fn view(&self) -> Nodes {
        slab_entries(self.nodes)
    }
}

impl Tree {
    /// The indices that the arena has released and will issue again, the
    /// one released last first.
    pub open(crate) spec fn released(&self) -> Seq<usize> {
        slab_released(self.nodes)
    }

    /// For each child its parent and its place among the parent's children.
    pub open(crate) spec fn parents(&self) -> Parents {
        self.parents@
    }

    /// For each node a number that is larger than its parent's.
    pub open(crate) spec fn depths(&self) -> Depths {
        self.depths@
    }

    /// A number above every depth.
    pub open(crate) spec fn limit(&self) -> nat {
        self.limit@
    }

    /// The number of slots that the tree has counted.
    pub open(crate) spec fn counted(&self) -> u64 {
        self.slots
    }

    /// The arena is a forest, whatever the update flags say.
    pub open spec fn structured(&self) -> bool {
        &&& forest(self@, self.parents(), self.depths(), self.limit())
        &&& bounded(self@, self.released())
        &&& self.counted() == self.slots()
        &&& self@.contains_key(0)
        &&& !self.parents().contains_key(0)
    }

    /// The invariant of a tree between updates: the arena is a forest that
    /// holds a root at index 0, and no node carries an update flag.
    pub open spec fn wf(&self) -> bool {
        self.structured() && settled(self@)
    }

    /// Two trees hold the same nodes and will issue the same indices.
    pub open spec fn same(&self, other: Tree) -> bool {
        &&& self@ == other@
        &&& self.released() == other.released()
        &&& self.parents() == other.parents()
        &&& self.depths() == other.depths()
        &&& self.limit() == other.limit()
        &&& self.counted() == other.counted()
    }

    /// The number of slots of the arena, in use and released.
    pub open spec fn slots(&self) -> nat {
        self@.dom().len() + self.released().len()
    }

    /// The indices that the next `n` allocations get, in order.
    pub open spec fn upcoming(&self, n: nat) -> Seq<usize> {
        issue(self@, self.released(), n)
    }

    /// Whether the node `x` is `root` or lies below it.
    pub open spec fn is_within(&self, root: usize, x: usize) -> bool {
        within(self.parents(), self.depths(), root, x)
    }

    /// A tree as `new` makes it: its one node, at index 0, is an empty
    /// shape whose box holds nothing, and no index has been released.
    pub open spec fn is_new(&self) -> bool {
        &&& self.wf()
        &&& self@ =~= map![0usize => Node::new_spec(NodeKind::Shape(Shape::Empty), Aabb::spec_invalid())]
        &&& self.released() =~= Seq::<usize>::empty()
        &&& self.parents() =~= Map::<usize, (usize, int)>::empty()
    }

    /// Creates a tree. Its one node, at index 0, is an empty shape whose box
    /// holds nothing.
    pub fn new() -> (tree: Tree)
        ensures
            tree.is_new(),
    {
        let mut nodes = slab_new();
        let root = Node::new(NodeKind::Shape(Shape::Empty), Aabb::invalid());
        let key = slab_insert(&mut nodes, root);
        let tree = Tree {
            nodes,
            parents: Ghost(Map::empty()),
            depths: Ghost(Map::<usize, nat>::empty().insert(0, 0)),
            limit: Ghost(1nat),
            slots: 1,
        };
        assert(tree@.dom() =~= set![0usize]);
        tree
    }

    /// The node at `index`, if there is one.
    pub fn get(&self, index: u32) -> (found: Option<&Node>)
        ensures
            found.is_some() == self@.contains_key(index as usize),
            found.is_some() ==> *found.unwrap() == self@[index as usize],
    {
        slab_get(&self.nodes, index as usize)
    }

    /// The number of slots of the arena, in use and released. An update
    /// needs one free index below 2^32 for each node that it allocates.
    pub fn slot_count(&self) -> (count: u64)
        requires
            self.wf(),
        ensures
            count == self.slots(),
    {
        self.slots
    }

    /// Whether the arena has an index below 2^32 for each node that
    /// `content` allocates: what `update_node` asks for.
    pub fn has_room(&self, content: &NodeContent) -> (ok: bool)
        requires
            self.wf(),
        ensures
            ok == (self.slots() + content.count() <= 0x1_0000_0000),
    {
        content.spend(0x1_0000_0000 - self.slots).is_some()
    }

    /// Whether there is a node at `index`.
    pub fn contains(&self, index: u32) -> (found: bool)
        ensures
            found == self@.contains_key(index as usize),
    {
        slab_get(&self.nodes, index as usize).is_some()
    }
}

} // verus!
