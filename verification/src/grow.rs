//! Allocating a subtree: the nodes of a `NewNode`, children before their
//! parent.

use vstd::prelude::*;
use crate::arena::slab_insert;
use crate::arith::Arithmetic;
use crate::bounds::{children_present, kind_bounds, measured};
use crate::forest::{adopt, adoptable, child_at, forest, issue, lemma_install, Nodes};
use crate::node::{Node, NodeKind};
use crate::protocol::{NewNode, Shape};
use crate::tree::Tree;

verus! {

/// The subtree of the arena at `id` has the shape of `node`: kind by kind
/// and child by child.
pub open spec fn copy_of(nodes: Nodes, id: usize, node: NewNode) -> bool
    decreases node,
{
    nodes.contains_key(id) && match node {
        NewNode::Shape(shape) => nodes[id].kind == NodeKind::Shape(shape),
        NewNode::Operation { operation, child } => {
            &&& nodes[id].kind == (NodeKind::Operation { operation, child: child_at(nodes, id, 0) })
            &&& copy_of(nodes, child_at(nodes, id, 0), *child)
        },
        NewNode::Group { children } => {
            &&& nodes[id].kind is Group
            &&& copies_of(nodes, nodes[id].kind.children(), children@)
        },
    }
}

/// Each of the subtrees at `ids` has the shape of the node in the same
/// place of `children`.
pub open spec fn copies_of(nodes: Nodes, ids: Seq<usize>, children: Seq<NewNode>) -> bool
    decreases children,
{
    ids.len() == children.len() && (children.len() == 0 || (copies_of(
        nodes,
        ids.drop_last(),
        children.drop_last(),
    ) && copy_of(nodes, ids.last(), children.last())))
}

/// The indices of the copy of `node` at `id`, each child's subtree before
/// the next child's, and all of them before `id`.
pub open spec fn layout(nodes: Nodes, id: usize, node: NewNode) -> Seq<usize>
    decreases node,
{
    match node {
        NewNode::Shape(shape) => seq![id],
        NewNode::Operation { operation, child } => layout(nodes, child_at(nodes, id, 0), *child).push(
            id,
        ),
        NewNode::Group { children } => layouts(nodes, nodes[id].kind.children(), children@).push(id),
    }
}

/// The layouts of the copies at `ids`, one after the other.
pub open spec fn layouts(nodes: Nodes, ids: Seq<usize>, children: Seq<NewNode>) -> Seq<usize>
    decreases children,
{
    if children.len() == 0 || ids.len() != children.len() {
        Seq::empty()
    } else {
        layouts(nodes, ids.drop_last(), children.drop_last()) + layout(
            nodes,
            ids.last(),
            children.last(),
        )
    }
}

/// Indices as they go on the wire.
pub open spec fn wire(ids: Seq<usize>) -> Seq<u32> {
    Seq::new(ids.len(), |i: int| ids[i] as u32)
}

/// What is left of the released indices after `n` allocations.
pub open spec fn spent(released: Seq<usize>, n: nat) -> Seq<usize> {
    if n <= released.len() {
        released.skip(n as int)
    } else {
        Seq::empty()
    }
}

/// The arena `after` holds what `before` held and agrees with it there.
pub open spec fn extends(before: Nodes, after: Nodes) -> bool {
    forall|x: usize| #[trigger]
        before.contains_key(x) ==> after.contains_key(x) && after[x] == before[x]
}

/// The arena `after` holds the nodes that `before` held, each with the kind
/// and the box that it had; their update flags may differ.
pub open spec fn agrees(before: Nodes, after: Nodes) -> bool {
    forall|x: usize| #[trigger]
        before.contains_key(x) ==> after.contains_key(x) && after[x].kind == before[x].kind
            && after[x].aabb == before[x].aabb
}

/// The next `a + b` indices are the next `a`, and then the next `b` of the
/// arena that has had `a` allocations.
pub(crate) proof fn lemma_issue_split(
    nodes: Nodes,
    released: Seq<usize>,
    nodes2: Nodes,
    released2: Seq<usize>,
    a: nat,
    b: nat,
)
    requires
        nodes2.dom().len() == nodes.dom().len() + a,
        released2 == spent(released, a),
    ensures
        issue(nodes, released, a + b) =~= issue(nodes, released, a) + issue(nodes2, released2, b),
{
}

/// A copy stays a copy, with the same layout, in an arena that extends the
/// one it was made in.
pub(crate) proof fn lemma_copy_extends(before: Nodes, after: Nodes, id: usize, node: NewNode)
    requires
        copy_of(before, id, node),
        agrees(before, after),
        forall|x: usize| #[trigger] before.contains_key(x) ==> children_present(before, before[x].kind),
    ensures
        copy_of(after, id, node),
        layout(after, id, node) == layout(before, id, node),
    decreases node,
{
    assert(before.contains_key(id));
    assert(children_present(before, before[id].kind));
    match node {
        NewNode::Shape(shape) => {},
        NewNode::Operation { operation, child } => {
            assert(before.contains_key(before[id].kind.children()[0]));
            lemma_copy_extends(before, after, child_at(before, id, 0), *child);
        },
        NewNode::Group { children } => {
            lemma_copies_extend(before, after, before[id].kind.children(), children@);
        },
    }
}

/// The same for several copies.
pub(crate) proof fn lemma_copies_extend(before: Nodes, after: Nodes, ids: Seq<usize>, children: Seq<NewNode>)
    requires
        copies_of(before, ids, children),
        agrees(before, after),
        forall|x: usize| #[trigger] before.contains_key(x) ==> children_present(before, before[x].kind),
    ensures
        copies_of(after, ids, children),
        layouts(after, ids, children) == layouts(before, ids, children),
    decreases children,
{
    if children.len() > 0 {
        lemma_copies_extend(before, after, ids.drop_last(), children.drop_last());
        lemma_copy_extends(before, after, ids.last(), children.last());
    }
}

} // verus!

verus! {

/// The tree `after` is the tree `before` with new nodes at `ids`, which
/// are the indices that `before` was about to issue, in that order. What
/// `before` held is as it was.
pub open spec fn grown(before: Tree, after: Tree, ids: Seq<usize>) -> bool {
    &&& ids == before.upcoming(ids.len())
    &&& extends(before@, after@)
    &&& forall|x: usize| #[trigger]
        after@.contains_key(x) ==> before@.contains_key(x) || ids.contains(x)
    &&& forall|i: int|
        0 <= i < ids.len() ==> after@.contains_key(#[trigger] ids[i]) && !before@.contains_key(ids[i])
    &&& ids.no_duplicates()
    &&& after@.dom().len() == before@.dom().len() + ids.len()
    &&& after.released() == spent(before.released(), ids.len())
    &&& forall|x: usize| #[trigger]
        before@.contains_key(x) ==> after.depths()[x] == before.depths()[x]
    &&& after.limit() >= before.limit()
}

/// The children of `before` have the parents that they had, and the only
/// other children of `after` are among `ids`.
pub open spec fn rooted(before: Tree, after: Tree, ids: Seq<usize>) -> bool {
    &&& forall|x: usize| #[trigger]
        before.parents().contains_key(x) ==> after.parents().contains_key(x) && after.parents()[x]
            == before.parents()[x]
    &&& forall|x: usize| #[trigger]
        after.parents().contains_key(x) ==> before.parents().contains_key(x) || ids.contains(x)
}

/// Every one of the nodes at `ids` carries the box of its kind and no
/// update flag, and lies at `depth` or deeper.
pub open spec fn fresh<A: Arithmetic>(arith: &A, tree: Tree, ids: Seq<usize>, depth: nat) -> bool {
    forall|i: int|
        0 <= i < ids.len() ==> {
            let id = #[trigger] ids[i];
            &&& measured(arith, tree@, id)
            &&& !tree@[id].owned
            &&& !tree@[id].reused
            &&& tree.depths()[id] >= depth
        }
}

/// Growth composes.
pub(crate) proof fn lemma_grown_twice(a: Tree, b: Tree, c: Tree, first: Seq<usize>, second: Seq<usize>)
    requires
        grown(a, b, first),
        grown(b, c, second),
    ensures
        grown(a, c, first + second),
{
    let ids = first + second;
    lemma_issue_split(a@, a.released(), b@, b.released(), first.len(), second.len());
    assert(ids =~= a.upcoming(ids.len()));
    assert forall|x: usize| #[trigger] c@.contains_key(x) implies a@.contains_key(x) || ids.contains(
        x,
    ) by {
        if !b@.contains_key(x) {
            let j = choose|j: int| 0 <= j < second.len() && second[j] == x;
            assert(ids[first.len() + j] == x);
        } else if !a@.contains_key(x) {
            let j = choose|j: int| 0 <= j < first.len() && first[j] == x;
            assert(ids[j] == x);
        }
    }
    assert forall|i: int| 0 <= i < ids.len() implies c@.contains_key(#[trigger] ids[i])
        && !a@.contains_key(ids[i]) by {
        if i < first.len() {
            assert(ids[i] == first[i]);
            assert(b@.contains_key(first[i]));
        } else {
            assert(ids[i] == second[i - first.len()]);
        }
    }
    assert forall|i: int, j: int| 0 <= i < ids.len() && 0 <= j < ids.len() && i != j implies ids[i]
        != ids[j] by {
        if i < first.len() && j >= first.len() {
            assert(b@.contains_key(first[i]));
            assert(!b@.contains_key(second[j - first.len()]));
        } else if j < first.len() && i >= first.len() {
            assert(b@.contains_key(first[j]));
            assert(!b@.contains_key(second[i - first.len()]));
        }
    }
    assert(c.released() == spent(a.released(), ids.len()));
}

/// A box that was right for a kind stays right in an arena that extends
/// the one it was taken in.
pub(crate) proof fn lemma_bounds_extend<A: Arithmetic>(
    arith: &A,
    before: Nodes,
    after: Nodes,
    kind: NodeKind,
    b: crate::aabb::Aabb,
)
    requires
        kind_bounds(arith, before, kind, b),
        children_present(before, kind),
        agrees(before, after),
    ensures
        kind_bounds(arith, after, kind, b),
        children_present(after, kind),
{
    assert forall|i: int| 0 <= i < kind.children().len() implies #[trigger] after.contains_key(
        kind.children()[i],
    ) && after[kind.children()[i]].aabb == before[kind.children()[i]].aabb by {
        assert(before.contains_key(kind.children()[i]));
    }
    match kind {
        NodeKind::Shape(shape) => {},
        NodeKind::Operation { operation, child } => {
            assert(after.contains_key(kind.children()[0]));
        },
        NodeKind::Group(children) => {
            assert forall|i: int| 0 <= i < children@.len() implies after[children@[i]].aabb
                == before[children@[i]].aabb by {
                assert(after.contains_key(kind.children()[i]));
            }
            assert(crate::bounds::child_boxes(after, children@) =~= crate::bounds::child_boxes(
                before,
                children@,
            ));
        },
    }
}

/// In a forest every child that a node names is in the arena.
pub(crate) proof fn lemma_forest_children(tree: Tree, id: usize)
    requires
        tree.structured(),
        tree@.contains_key(id),
    ensures
        children_present(tree@, tree@[id].kind),
{
    assert forall|i: int| 0 <= i < tree@[id].kind.children().len() implies #[trigger] tree@.contains_key(
        tree@[id].kind.children()[i],
    ) by {
        let c = child_at(tree@, id, i);
        assert(crate::forest::linked(tree@, tree.parents(), tree.depths(), c));
    }
}

/// In a forest every node finds all its children in the arena.
pub(crate) proof fn lemma_forest_integrity(tree: Tree)
    requires
        tree.structured(),
    ensures
        forall|x: usize| #[trigger] tree@.contains_key(x) ==> children_present(tree@, tree@[x].kind),
{
    assert forall|x: usize| #[trigger] tree@.contains_key(x) implies children_present(
        tree@,
        tree@[x].kind,
    ) by {
        lemma_forest_children(tree, x);
    }
}

/// Fresh nodes stay fresh while the tree grows.
pub(crate) proof fn lemma_fresh_grown<A: Arithmetic>(
    arith: &A,
    a: Tree,
    b: Tree,
    ids: Seq<usize>,
    more: Seq<usize>,
    depth: nat,
)
    requires
        a.structured(),
        fresh(arith, a, ids, depth),
        forall|i: int| 0 <= i < ids.len() ==> a@.contains_key(#[trigger] ids[i]),
        grown(a, b, more),
    ensures
        fresh(arith, b, ids, depth),
{
    assert forall|i: int| 0 <= i < ids.len() implies {
        let id = #[trigger] ids[i];
        &&& measured(arith, b@, id)
        &&& !b@[id].owned
        &&& !b@[id].reused
        &&& b.depths()[id] >= depth
    } by {
        let id = ids[i];
        assert(a@.contains_key(id));
        lemma_forest_children(a, id);
        lemma_bounds_extend(arith, a@, b@, a@[id].kind, a@[id].aabb);
    }
}

/// A tree that has grown by some nodes has at most that many more slots.
pub(crate) proof fn lemma_grown_slots(a: Tree, b: Tree, ids: Seq<usize>)
    requires
        grown(a, b, ids),
    ensures
        b.slots() <= a.slots() + ids.len(),
{
}

/// The parent clauses compose as growth does.
pub(crate) proof fn lemma_rooted_twice(a: Tree, b: Tree, c: Tree, first: Seq<usize>, second: Seq<usize>)
    requires
        rooted(a, b, first),
        rooted(b, c, second),
    ensures
        rooted(a, c, first + second),
{
    let ids = first + second;
    assert forall|x: usize| #[trigger] c.parents().contains_key(x) implies a.parents().contains_key(x)
        || ids.contains(x) by {
        if !b.parents().contains_key(x) {
            let j = choose|j: int| 0 <= j < second.len() && second[j] == x;
            assert(ids[first.len() + j] == x);
        } else if !a.parents().contains_key(x) {
            let j = choose|j: int| 0 <= j < first.len() && first[j] == x;
            assert(ids[j] == x);
        }
    }
}

/// The nodes of the first `i + 1` subtrees are those of the first `i` and
/// those of the next one, and no more than the nodes of all of them.
pub(crate) proof fn lemma_count_prefix(children: Seq<NewNode>, i: int)
    requires
        0 <= i < children.len(),
    ensures
        NewNode::count_all(children.take(i + 1)) == NewNode::count_all(children.take(i))
            + children[i].count(),
        NewNode::count_all(children.take(i + 1)) <= NewNode::count_all(children),
    decreases children.len() - i,
{
    assert(children.take(i + 1).drop_last() =~= children.take(i));
    if i + 1 < children.len() {
        lemma_count_prefix(children, i + 1);
    } else {
        assert(children.take(i + 1) =~= children);
    }
}

/// The nodes at `kids` are distinct nodes of `after` that `before` did not
/// hold; they have no parent and lie at `depth`.
pub open spec fn roots(before: Tree, after: Tree, kids: Seq<usize>, depth: nat) -> bool {
    &&& forall|j: int|
        0 <= j < kids.len() ==> {
            let kid = #[trigger] kids[j];
            &&& after@.contains_key(kid)
            &&& !before@.contains_key(kid)
            &&& !after.parents().contains_key(kid)
            &&& after.depths()[kid] == depth
        }
    &&& forall|j: int, k: int| 0 <= j < k < kids.len() ==> #[trigger] kids[j] != #[trigger] kids[k]
}

impl Tree {
    /// Stores one node whose children have no parent yet, and makes it
    /// their parent.
    pub(crate) fn install(&mut self, node: Node, Ghost(depth): Ghost<nat>) -> (key: usize)
        requires
            old(self).structured(),
            old(self).slots() < 0x1_0000_0000,
            adoptable(old(self)@, old(self).parents(), old(self).depths(), node.kind.children(), depth),
        ensures
            final(self).structured(),
            grown(*old(self), *final(self), seq![key]),
            final(self)@ == old(self)@.insert(key, node),
            final(self).parents() == adopt(old(self).parents(), key, node.kind.children()),
            final(self).depths() == old(self).depths().insert(key, depth),
            key < 0x1_0000_0000,
    {
        let ghost before = *self;
        let key = slab_insert(&mut self.nodes, node);
        if key as u64 == self.slots {
            self.slots = self.slots + 1;
        }
        proof {
            if self.parents@.contains_key(key) {
                assert(crate::forest::linked(before@, before.parents(), before.depths(), key));
            }
            lemma_install(before@, before.parents(), before.depths(), before.limit(), key, node, depth);
            self.parents@ = adopt(before.parents(), key, node.kind.children());
            self.depths@ = before.depths().insert(key, depth);
            self.limit@ = if before.limit() > depth {
                before.limit()
            } else {
                depth + 1
            };
            assert(self@.dom() =~= before@.dom().insert(key));
            assert(seq![key] =~= before.upcoming(1));
            assert(seq![key].no_duplicates());
            assert(self.released() =~= spent(before.released(), 1));
            assert(self@.dom().len() == before@.dom().len() + 1);
            assert(extends(before@, self@));
            assert(forall|x: usize| #[trigger]
                self@.contains_key(x) ==> before@.contains_key(x) || seq![key].contains(x)) by {
                assert(seq![key][0] == key);
            }
            if node.kind.children().contains(0) {
                let j = node.kind.children().index_of(0);
                assert(node.kind.children()[j] == 0);
            }
        }
        key
    }

    /// Allocates the nodes of `node`, the children before their parent, and
    /// appends their indices to `new_indices` in that order. The root of
    /// the subtree, whose index is returned, has no parent.
    pub(crate) fn materialize<A: Arithmetic>(
        &mut self,
        new_indices: &mut Vec<u32>,
        node: NewNode,
        arith: &A,
        Ghost(depth): Ghost<nat>,
    ) -> (index: u32)
        requires
            old(self).structured(),
            old(self).slots() + node.count() <= 0x1_0000_0000,
        ensures
            final(self).structured(),
            grown(*old(self), *final(self), old(self).upcoming(node.count())),
            rooted(*old(self), *final(self), old(self).upcoming(node.count())),
            fresh(arith, *final(self), old(self).upcoming(node.count()), depth),
            final(new_indices)@ == old(new_indices)@ + wire(old(self).upcoming(node.count())),
            index as usize == old(self).upcoming(node.count()).last(),
            copy_of(final(self)@, index as usize, node),
            layout(final(self)@, index as usize, node) == old(self).upcoming(node.count()),
            !final(self).parents().contains_key(index as usize),
            final(self).depths()[index as usize] == depth,
        decreases node,
    {
        let ghost before = *self;
        let ghost wanted = node;
        let ghost listed = new_indices@;
        let ghost below: Seq<usize>;
        let kind = match node {
            NewNode::Shape(shape) => {
                proof {
                    below = Seq::empty();
                    lemma_grown_none(before);
                }
                NodeKind::Shape(shape)
            },
            NewNode::Operation { operation, child } => {
                let child = self.materialize(new_indices, *child, arith, Ghost(depth + 1));
                proof {
                    assert(wanted.count() == 1 + wanted->Operation_child.count());
                    below = before.upcoming((wanted.count() - 1) as nat);
                    assert(below.last() == child as usize);
                }
                NodeKind::Operation { operation, child: child as usize }
            },
            NewNode::Group { children } => {
                let kids = self.materialize_all(new_indices, children, arith, Ghost(depth + 1));
                proof {
                    assert(wanted.count() == 1 + NewNode::count_all(wanted->Group_children@));
                    below = before.upcoming((wanted.count() - 1) as nat);
                }
                NodeKind::Group(kids)
            },
        };
        let ghost mid = *self;
        proof {
            assert(grown(before, mid, below));
            lemma_grown_slots(before, mid, below);
            lemma_forest_integrity(mid);
            assert(kind.children().len() > 0 ==> !mid.parents().contains_key(kind.children()[0]));
        }
        let made = self.create_new_node(kind, arith);
        let key = self.install(made, Ghost(depth));
        new_indices.push(key as u32);
        proof {
            let ids = below + seq![key];
            lemma_grown_twice(before, mid, *self, below, seq![key]);
            assert(ids.len() == wanted.count());
            assert(ids == before.upcoming(wanted.count()));
            assert(new_indices@ =~= listed + wire(ids));
            assert forall|x: usize| #[trigger]
                before.parents().contains_key(x) implies self.parents().contains_key(x)
                && self.parents()[x] == before.parents()[x] by {
                assert(crate::forest::linked(before@, before.parents(), before.depths(), x));
                if kind.children().contains(x) {
                    let j = kind.children().index_of(x);
                    assert(kind.children()[j] == x);
                }
            }
            assert forall|x: usize| #[trigger]
                self.parents().contains_key(x) implies before.parents().contains_key(x)
                || ids.contains(x) by {
                if kind.children().contains(x) {
                    let j = kind.children().index_of(x);
                    assert(kind.children()[j] == x);
                    assert(mid@.contains_key(x) && !before@.contains_key(x));
                    let k = choose|k: int| 0 <= k < below.len() && below[k] == x;
                    assert(ids[k] == x);
                } else if !before.parents().contains_key(x) {
                    let k = choose|k: int| 0 <= k < below.len() && below[k] == x;
                    assert(ids[k] == x);
                }
            }
            lemma_fresh_grown(arith, mid, *self, below, seq![key], (depth + 1) as nat);
            lemma_bounds_extend(arith, mid@, self@, made.kind, made.aabb);
            assert(fresh(arith, *self, ids, depth)) by {
                assert forall|i: int| 0 <= i < ids.len() implies {
                    let id = #[trigger] ids[i];
                    &&& measured(arith, self@, id)
                    &&& !self@[id].owned
                    &&& !self@[id].reused
                    &&& self.depths()[id] >= depth
                } by {
                    if i < below.len() {
                        assert(ids[i] == below[i]);
                    }
                }
            }
            match wanted {
                NewNode::Shape(shape) => {},
                NewNode::Operation { operation, child } => {
                    lemma_copy_extends(mid@, self@, below.last(), *child);
                    assert(child_at(self@, key, 0) == below.last());
                    assert(layout(self@, key, wanted) =~= ids);
                },
                NewNode::Group { children } => {
                    lemma_copies_extend(mid@, self@, kind.children(), children@);
                    assert(layout(self@, key, wanted) =~= ids);
                },
            }
            if kind.children().contains(key) {
                let j = kind.children().index_of(key);
                assert(kind.children()[j] == key);
            }
        }
        key as u32
    }

    /// Allocates one subtree after the other and returns their roots.
    pub(crate) fn materialize_all<A: Arithmetic>(
        &mut self,
        new_indices: &mut Vec<u32>,
        subtrees: Vec<NewNode>,
        arith: &A,
        Ghost(depth): Ghost<nat>,
    ) -> (kids: Vec<usize>)
        requires
            old(self).structured(),
            old(self).slots() + NewNode::count_all(subtrees@) <= 0x1_0000_0000,
        ensures
            final(self).structured(),
            grown(*old(self), *final(self), old(self).upcoming(NewNode::count_all(subtrees@))),
            rooted(*old(self), *final(self), old(self).upcoming(NewNode::count_all(subtrees@))),
            fresh(arith, *final(self), old(self).upcoming(NewNode::count_all(subtrees@)), depth),
            final(new_indices)@ == old(new_indices)@ + wire(
                old(self).upcoming(NewNode::count_all(subtrees@)),
            ),
            copies_of(final(self)@, kids@, subtrees@),
            layouts(final(self)@, kids@, subtrees@) == old(self).upcoming(
                NewNode::count_all(subtrees@),
            ),
            roots(*old(self), *final(self), kids@, depth),
        decreases subtrees,
    {
        let ghost before = *self;
        let ghost given = subtrees;
        let ghost wanted = subtrees@;
        let ghost listed = new_indices@;
        let ghost done: Seq<usize> = Seq::empty();
        let mut children = subtrees;
        let mut kids: Vec<usize> = Vec::new();
        let mut i: usize = 0;
        proof {
            assert(wanted.take(0) =~= Seq::<NewNode>::empty());
            assert(done =~= before.upcoming(0));
            lemma_grown_none(before);
        }
        while i < children.len()
            invariant
                i <= children.len(),
                children@.len() == wanted.len(),
                forall|j: int| i <= j < wanted.len() ==> children@[j] == wanted[j],
                forall|j: int| 0 <= j < wanted.len() ==> decreases_to!(given => wanted[j]),
                given == subtrees,
                wanted == given@,
                before.structured(),
                before.slots() + NewNode::count_all(wanted) <= 0x1_0000_0000,
                self.structured(),
                done.len() == NewNode::count_all(wanted.take(i as int)),
                grown(before, *self, done),
                rooted(before, *self, done),
                fresh(arith, *self, done, depth),
                new_indices@ == listed + wire(done),
                kids@.len() == i,
                copies_of(self@, kids@, wanted.take(i as int)),
                layouts(self@, kids@, wanted.take(i as int)) == done,
                roots(before, *self, kids@, depth),
            decreases children.len() - i,
        {
            let ghost mid = *self;
            let ghost kids_before = kids@;
            let mut taken = NewNode::Shape(Shape::Empty);
            std::mem::swap(&mut children[i], &mut taken);
            proof {
                lemma_count_prefix(wanted, i as int);
                lemma_grown_slots(before, mid, done);
                assert(taken == wanted[i as int]);
            }
            let kid = self.materialize(new_indices, taken, arith, Ghost(depth));
            kids.push(kid as usize);
            proof {
                let more = mid.upcoming(taken.count());
                lemma_grown_twice(before, mid, *self, done, more);
                lemma_rooted_twice(before, mid, *self, done, more);
                lemma_fresh_grown(arith, mid, *self, done, more, depth);
                lemma_forest_integrity(mid);
                lemma_copies_extend(mid@, self@, kids_before, wanted.take(i as int));
                assert(wanted.take(i + 1).drop_last() =~= wanted.take(i as int));
                assert(kids@.drop_last() =~= kids_before);
                assert(wanted.take(i + 1).last() == taken);
                assert(fresh(arith, *self, done + more, depth)) by {
                    assert forall|k: int| 0 <= k < (done + more).len() implies {
                        let id = #[trigger] (done + more)[k];
                        &&& measured(arith, self@, id)
                        &&& !self@[id].owned
                        &&& !self@[id].reused
                        &&& self.depths()[id] >= depth
                    } by {
                        if k < done.len() {
                            assert((done + more)[k] == done[k]);
                        } else {
                            assert((done + more)[k] == more[k - done.len()]);
                        }
                    }
                }
                assert(new_indices@ =~= listed + wire(done + more));
                assert(roots(before, *self, kids@, depth)) by {
                    assert forall|j: int| 0 <= j < kids@.len() implies {
                        let kid = #[trigger] kids@[j];
                        &&& self@.contains_key(kid)
                        &&& !before@.contains_key(kid)
                        &&& !self.parents().contains_key(kid)
                        &&& self.depths()[kid] == depth
                    } by {
                        if j < i {
                            assert(kids@[j] == kids_before[j]);
                            assert(mid@.contains_key(kids_before[j]));
                        } else {
                            assert(more.last() == more[more.len() - 1]);
                            assert(self@.contains_key(more[more.len() - 1]));
                        }
                    }
                    assert forall|j: int, k: int| 0 <= j < k < kids@.len() implies #[trigger] kids@[j]
                        != #[trigger] kids@[k] by {
                        if k == i {
                            assert(kids@[j] == kids_before[j]);
                            assert(mid@.contains_key(kids_before[j]));
                            assert(more.last() == more[more.len() - 1]);
                            assert(!mid@.contains_key(more[more.len() - 1]));
                        } else {
                            assert(kids@[j] == kids_before[j]);
                            assert(kids@[k] == kids_before[k]);
                        }
                    }
                }
                done = done + more;
            }
            i += 1;
        }
        proof {
            assert(wanted.take(i as int) =~= wanted);
        }
        kids
    }
}

/// A tree has grown by nothing from itself.
pub(crate) proof fn lemma_grown_none(tree: Tree)
    ensures
        grown(tree, tree, Seq::empty()),
        rooted(tree, tree, Seq::empty()),
{
    assert(Seq::<usize>::empty() =~= tree.upcoming(0));
    assert(tree.released() =~= spent(tree.released(), 0));
}

} // verus!
