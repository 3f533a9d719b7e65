//! What a tree's arena is, as mathematics: a finite map from indices to
//! nodes in which every child has one parent and no node is its own
//! ancestor.

use vstd::prelude::*;
use crate::node::Node;

verus! {

/// The arena: the nodes by their indices.
pub type Nodes = Map<usize, Node>;

/// For each node that is a child, its parent and its place among that
/// parent's children.
pub type Parents = Map<usize, (usize, int)>;

/// For each node a number that is larger than its parent's.
pub type Depths = Map<usize, nat>;

/// The child in place `i` of the node `id`.
pub open spec fn child_at(nodes: Nodes, id: usize, i: int) -> usize {
    nodes[id].kind.children()[i]
}

/// The node `c` is in the arena, and so is its parent, which has it as a
/// child in the recorded place and lies less deep.
pub open spec fn linked(nodes: Nodes, parents: Parents, depths: Depths, c: usize) -> bool {
    &&& nodes.contains_key(c)
    &&& nodes.contains_key(parents[c].0)
    &&& 0 <= parents[c].1 < nodes[parents[c].0].kind.children().len()
    &&& child_at(nodes, parents[c].0, parents[c].1) == c
    &&& depths[parents[c].0] < depths[c]
}

/// The arena is a forest: it is finite, every child that a node names is in
/// it and has that node, in that place, as its one parent, and depth grows
/// from parent to child, below `limit`.
pub open spec fn forest(nodes: Nodes, parents: Parents, depths: Depths, limit: nat) -> bool {
    &&& nodes.dom().finite()
    &&& forall|id: usize| #[trigger]
        nodes.contains_key(id) ==> depths.contains_key(id) && depths[id] < limit
    &&& forall|id: usize, i: int|
        nodes.contains_key(id) && 0 <= i < nodes[id].kind.children().len() ==> {
            let c = #[trigger] child_at(nodes, id, i);
            parents.contains_key(c) && parents[c] == (id, i)
        }
    &&& forall|c: usize| #[trigger] parents.contains_key(c) ==> linked(nodes, parents, depths, c)
}

/// No node carries an update flag.
pub open spec fn settled(nodes: Nodes) -> bool {
    forall|id: usize| #[trigger] nodes.contains_key(id) ==> !nodes[id].owned && !nodes[id].reused
}

/// Every index, in use or released, lies below the number of slots, and
/// that number fits the 32 bits of an index on the wire.
pub open spec fn bounded(nodes: Nodes, released: Seq<usize>) -> bool {
    &&& nodes.dom().len() + released.len() <= 0x1_0000_0000
    &&& forall|id: usize| #[trigger] nodes.contains_key(id) ==> id < nodes.dom().len() + released.len()
    &&& forall|j: int|
        0 <= j < released.len() ==> #[trigger] released[j] < nodes.dom().len() + released.len()
}

/// The indices that the next `n` allocations get, in order: first the
/// released ones, the one released last first, then new ones.
pub open spec fn issue(nodes: Nodes, released: Seq<usize>, n: nat) -> Seq<usize> {
    Seq::new(
        n,
        |i: int|
            if i < released.len() {
                released[i]
            } else {
                (nodes.dom().len() + i) as usize
            },
    )
}

/// Whether `x` is `root` or lies below it.
pub open spec fn within(parents: Parents, depths: Depths, root: usize, x: usize) -> bool
    decreases depths[x],
{
    x == root || (parents.contains_key(x) && depths[parents[x].0] < depths[x] && within(
        parents,
        depths,
        root,
        parents[x].0,
    ))
}

/// A node that lies within `root` lies at least as deep.
pub proof fn lemma_within_depth(parents: Parents, depths: Depths, root: usize, x: usize)
    requires
        within(parents, depths, root, x),
    ensures
        depths[root] <= depths[x],
    decreases depths[x],
{
    if x != root {
        lemma_within_depth(parents, depths, root, parents[x].0);
    }
}

/// What lies within a child lies within its parent.
pub proof fn lemma_within_parent(parents: Parents, depths: Depths, root: usize, c: usize, x: usize)
    requires
        within(parents, depths, c, x),
        parents.contains_key(c),
        parents[c].0 == root,
        depths[root] < depths[c],
    ensures
        within(parents, depths, root, x),
    decreases depths[x],
{
    if x != c {
        lemma_within_parent(parents, depths, root, c, parents[x].0);
    } else {
        assert(within(parents, depths, root, root));
    }
}

} // verus!

verus! {

/// The children are distinct nodes of the arena, other than the root, that
/// have no parent and lie deeper than `depth`.
pub open spec fn adoptable(
    nodes: Nodes,
    parents: Parents,
    depths: Depths,
    children: Seq<usize>,
    depth: nat,
) -> bool {
    &&& forall|i: int|
        0 <= i < children.len() ==> {
            let c = #[trigger] children[i];
            nodes.contains_key(c) && !parents.contains_key(c) && c != 0 && depths[c] > depth
        }
    &&& forall|i: int, j: int|
        0 <= i < j < children.len() ==> #[trigger] children[i] != #[trigger] children[j]
}

/// The parents after the node `key` has taken the given children.
pub open spec fn adopt(parents: Parents, key: usize, children: Seq<usize>) -> Parents {
    Map::new(
        |c: usize| parents.contains_key(c) || children.contains(c),
        |c: usize|
            if children.contains(c) {
                (key, children.index_of(c))
            } else {
                parents[c]
            },
    )
}

/// In a list of distinct children each one is found at its own place.
pub proof fn lemma_place(children: Seq<usize>, i: int)
    requires
        0 <= i < children.len(),
        forall|a: int, b: int|
            0 <= a < b < children.len() ==> #[trigger] children[a] != #[trigger] children[b],
    ensures
        children.contains(children[i]),
        children.index_of(children[i]) == i,
{
    let c = children[i];
    assert(children.contains(c));
    let j = children.index_of(c);
    assert(0 <= j < children.len() && children[j] == c);
    if j < i {
        assert(children[j] != children[i]);
    } else if i < j {
        assert(children[i] != children[j]);
    }
}

/// A forest stays one when a new node, less deep than its children, takes
/// children that had no parent.
pub proof fn lemma_install(
    nodes: Nodes,
    parents: Parents,
    depths: Depths,
    limit: nat,
    key: usize,
    node: Node,
    depth: nat,
)
    requires
        forest(nodes, parents, depths, limit),
        !nodes.contains_key(key),
        !parents.contains_key(key),
        adoptable(nodes, parents, depths, node.kind.children(), depth),
    ensures
        forest(
            nodes.insert(key, node),
            adopt(parents, key, node.kind.children()),
            depths.insert(key, depth),
            if limit > depth {
                limit
            } else {
                depth + 1
            },
        ),
{
    let children = node.kind.children();
    let nodes2 = nodes.insert(key, node);
    let parents2 = adopt(parents, key, children);
    let depths2 = depths.insert(key, depth);
    let limit2 = if limit > depth {
        limit
    } else {
        depth + 1
    };
    assert forall|id: usize, i: int|
        nodes2.contains_key(id) && 0 <= i < nodes2[id].kind.children().len() implies {
        let c = #[trigger] child_at(nodes2, id, i);
        parents2.contains_key(c) && parents2[c] == (id, i)
    } by {
        let c = child_at(nodes2, id, i);
        if id == key {
            lemma_place(children, i);
        } else {
            assert(child_at(nodes, id, i) == c);
            assert(parents.contains_key(c) && parents[c] == (id, i));
            if children.contains(c) {
                let j = children.index_of(c);
                assert(children[j] == c);
            }
        }
    }
    assert forall|c: usize| #[trigger] parents2.contains_key(c) implies linked(
        nodes2,
        parents2,
        depths2,
        c,
    ) by {
        if children.contains(c) {
            let j = children.index_of(c);
            assert(children[j] == c);
            assert(child_at(nodes2, key, j) == c);
        } else {
            assert(linked(nodes, parents, depths, c));
            assert(parents[c].0 != key);
            assert(child_at(nodes, parents[c].0, parents[c].1) == c);
        }
    }
}

} // verus!
