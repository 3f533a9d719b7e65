//! What holds of every update that succeeds: the new indices are new, a
//! child is allocated before its parent, a kept child stays as it was, and an
//! abandoned child is gone with everything below it.

use vstd::prelude::*;
use crate::arith::Arithmetic;
use crate::engine::{lemma_abandoned_inside, rewritten};
use crate::forest::{child_at, linked, Nodes};
use crate::grow::{copies_of, copy_of, layout, layouts};
use crate::protocol::{ChildUpdate, NewNode, NodeUpdate};
use crate::prune::{abandoned, abandoned_by, lemma_siblings};
use crate::tree::Tree;
use crate::update::{first_refusal, kept, kept_before, listing, placed, refusal, verdict};

verus! {

/// The layout of a copy ends with its root.
pub proof fn lemma_layout_root(nodes: Nodes, id: usize, node: NewNode)
    ensures
        layout(nodes, id, node).len() >= 1,
        layout(nodes, id, node).last() == id,
{
}

/// The root of each of several copies is in their layouts.
pub proof fn lemma_layouts_roots(nodes: Nodes, ids: Seq<usize>, children: Seq<NewNode>, j: int) -> (q:
    int)
    requires
        ids.len() == children.len(),
        0 <= j < ids.len(),
    ensures
        0 <= q < layouts(nodes, ids, children).len(),
        layouts(nodes, ids, children)[q] == ids[j],
    decreases children.len(),
{
    let first = layouts(nodes, ids.drop_last(), children.drop_last());
    let last = layout(nodes, ids.last(), children.last());
    lemma_layout_root(nodes, ids.last(), children.last());
    if j == ids.len() - 1 {
        first.len() + last.len() - 1
    } else {
        lemma_layouts_roots(nodes, ids.drop_last(), children.drop_last(), j)
    }
}

/// In the layout of a copy every child of a node stands before the node.
pub proof fn lemma_layout_order(nodes: Nodes, id: usize, node: NewNode, p: int, j: int) -> (q: int)
    requires
        copy_of(nodes, id, node),
        0 <= p < layout(nodes, id, node).len(),
        0 <= j < nodes[layout(nodes, id, node)[p]].kind.children().len(),
    ensures
        0 <= q < p,
        layout(nodes, id, node)[q] == child_at(nodes, layout(nodes, id, node)[p], j),
    decreases node,
{
    match node {
        NewNode::Shape(shape) => 0,
        NewNode::Operation { operation, child } => {
            let below = layout(nodes, child_at(nodes, id, 0), *child);
            lemma_layout_root(nodes, child_at(nodes, id, 0), *child);
            if p == below.len() {
                below.len() - 1
            } else {
                lemma_layout_order(nodes, child_at(nodes, id, 0), *child, p, j)
            }
        },
        NewNode::Group { children } => {
            let kids = nodes[id].kind.children();
            let below = layouts(nodes, kids, children@);
            assert(copies_of(nodes, kids, children@));
            assert(kids.len() == children@.len());
            if p == below.len() {
                lemma_layouts_roots(nodes, kids, children@, j)
            } else {
                lemma_layouts_order(nodes, kids, children@, p, j)
            }
        },
    }
}

/// The same in the layouts of several copies.
pub proof fn lemma_layouts_order(
    nodes: Nodes,
    ids: Seq<usize>,
    children: Seq<NewNode>,
    p: int,
    j: int,
) -> (q: int)
    requires
        copies_of(nodes, ids, children),
        0 <= p < layouts(nodes, ids, children).len(),
        0 <= j < nodes[layouts(nodes, ids, children)[p]].kind.children().len(),
    ensures
        0 <= q < p,
        layouts(nodes, ids, children)[q] == child_at(nodes, layouts(nodes, ids, children)[p], j),
    decreases children,
{
    let first = layouts(nodes, ids.drop_last(), children.drop_last());
    if p < first.len() {
        lemma_layouts_order(nodes, ids.drop_last(), children.drop_last(), p, j)
    } else {
        first.len() + lemma_layout_order(nodes, ids.last(), children.last(), p - first.len(), j)
    }
}

/// The same in the listing of an update.
pub proof fn lemma_listing_order(
    nodes: Nodes,
    entries: Seq<ChildUpdate>,
    kids: Seq<usize>,
    p: int,
    j: int,
) -> (q: int)
    requires
        placed(nodes, entries, kids),
        0 <= p < listing(nodes, entries, kids).len(),
        0 <= j < nodes[listing(nodes, entries, kids)[p]].kind.children().len(),
    ensures
        0 <= q < p,
        listing(nodes, entries, kids)[q] == child_at(nodes, listing(nodes, entries, kids)[p], j),
    decreases entries.len(),
{
    let first = listing(nodes, entries.drop_last(), kids.drop_last());
    if p < first.len() {
        lemma_listing_order(nodes, entries.drop_last(), kids.drop_last(), p, j)
    } else {
        match entries.last() {
            ChildUpdate::KeepIndex(k) => 0,
            ChildUpdate::NewNode(node) => first.len() + lemma_layout_order(
                nodes,
                kids.last(),
                node,
                p - first.len(),
                j,
            ),
        }
    }
}

/// The child that an entry gives the target stands in the place of the
/// entry; for an entry that keeps an index it is that index.
pub proof fn lemma_placed_at(nodes: Nodes, entries: Seq<ChildUpdate>, kids: Seq<usize>, i: int)
    requires
        placed(nodes, entries, kids),
        0 <= i < entries.len(),
    ensures
        match entries[i] {
            ChildUpdate::KeepIndex(k) => kids[i] == k as usize,
            ChildUpdate::NewNode(node) => copy_of(nodes, kids[i], node),
        },
    decreases entries.len(),
{
    if i < entries.len() - 1 {
        lemma_placed_at(nodes, entries.drop_last(), kids.drop_last(), i);
    }
}

/// Where no entry is refused, none has a verdict against it.
pub proof fn lemma_no_refusal(tree: Tree, target: usize, entries: Seq<ChildUpdate>, i: int)
    requires
        first_refusal(tree, target, entries) is None,
        0 <= i < entries.len(),
    ensures
        verdict(tree, target, entries.take(i), entries[i]) is None,
    decreases entries.len(),
{
    if i < entries.len() - 1 {
        lemma_no_refusal(tree, target, entries.drop_last(), i);
        assert(entries.drop_last().take(i) =~= entries.take(i));
    } else {
        assert(entries.drop_last() =~= entries.take(i));
    }
}

/// Id monotonicity within an update: the indices that a successful update
/// returns are distinct, were not in the arena before it, and are in the
/// arena after it.
pub proof fn lemma_new_indices_fresh<A: Arithmetic>(
    arith: &A,
    start: Tree,
    end: Tree,
    update: NodeUpdate,
    new_nodes: Seq<u32>,
)
    requires
        end.wf(),
        rewritten(arith, start, end, update, new_nodes),
    ensures
        new_nodes.no_duplicates(),
        forall|i: int|
            0 <= i < new_nodes.len() ==> !start@.contains_key(#[trigger] new_nodes[i] as usize)
                && end@.contains_key(new_nodes[i] as usize),
{
    let ids = start.upcoming(update.content.count());
    assert forall|i: int| 0 <= i < new_nodes.len() implies #[trigger] new_nodes[i] as usize
        == ids[i] by {
        assert(end@.contains_key(ids[i]));
    }
    assert forall|i: int, j: int|
        0 <= i < new_nodes.len() && 0 <= j < new_nodes.len() && i != j implies new_nodes[i]
        != new_nodes[j] by {
        assert(new_nodes[i] as usize == ids[i]);
        assert(new_nodes[j] as usize == ids[j]);
    }
}

/// Allocation order: among the indices that a successful update returns,
/// each child of a new node stands before that node.
pub proof fn lemma_children_before_parent<A: Arithmetic>(
    arith: &A,
    start: Tree,
    end: Tree,
    update: NodeUpdate,
    new_nodes: Seq<u32>,
    p: int,
    j: int,
) -> (q: int)
    requires
        end.wf(),
        rewritten(arith, start, end, update, new_nodes),
        0 <= p < new_nodes.len(),
        0 <= j < end@[new_nodes[p] as usize].kind.children().len(),
    ensures
        0 <= q < p,
        new_nodes[q] as usize == child_at(end@, new_nodes[p] as usize, j),
{
    let ids = start.upcoming(update.content.count());
    let kids = end@[update.target as usize].kind.children();
    assert(end@.contains_key(ids[p]));
    assert(new_nodes[p] as usize == ids[p]);
    let q = lemma_listing_order(end@, update.content.entries(), kids, p, j);
    assert(end@.contains_key(ids[q]));
    assert(new_nodes[q] as usize == ids[q]);
    q
}

/// Reuse preserves id: a child of the target that a successful update keeps
/// by its index is in the arena after the update as it was before, and is
/// the child of the target in the place of the entry that keeps it.
pub proof fn lemma_kept_child_stays<A: Arithmetic>(
    arith: &A,
    start: Tree,
    end: Tree,
    update: NodeUpdate,
    new_nodes: Seq<u32>,
    i: int,
    k: u32,
)
    requires
        start.wf(),
        refusal(start, update) is None,
        rewritten(arith, start, end, update, new_nodes),
        0 <= i < update.content.entries().len(),
        update.content.entries()[i] == ChildUpdate::KeepIndex(k),
    ensures
        start@[update.target as usize].kind.children().contains(k as usize),
        end@.contains_key(k as usize),
        end@[k as usize] == start@[k as usize],
        end@[update.target as usize].kind.children()[i] == k as usize,
{
    let target = update.target as usize;
    let entries = update.content.entries();
    let before = start@[target].kind.children();
    let x = k as usize;
    lemma_no_refusal(start, target, entries, i);
    assert(before.contains(x));
    lemma_placed_at(end@, entries, end@[target].kind.children(), i);
    let m = before.index_of(x);
    crate::grow::lemma_forest_children(start, target);
    assert(start@.contains_key(start@[target].kind.children()[m]));
    assert(child_at(start@, target, m) == x);
    assert(linked(start@, start.parents(), start.depths(), x));
    assert(kept_before(entries, k));
    assert(kept(entries).contains(x));
    if abandoned(start, target, kept(entries), x) {
        let j = choose|j: int|
            0 <= j < before.len() && j < before.len() && !kept(entries).contains(before[j])
                && #[trigger] start.is_within(before[j], x);
        lemma_siblings(start@, start.parents(), start.depths(), start.limit(), target, j, m);
    }
}

/// Orphan collection: a child of the target that a successful update does
/// not keep is in the arena no more, and neither is any node below it.
pub proof fn lemma_abandoned_child_gone<A: Arithmetic>(
    arith: &A,
    start: Tree,
    end: Tree,
    update: NodeUpdate,
    new_nodes: Seq<u32>,
    j: int,
    x: usize,
)
    requires
        start.wf(),
        start@.contains_key(update.target as usize),
        rewritten(arith, start, end, update, new_nodes),
        0 <= j < start@[update.target as usize].kind.children().len(),
        !kept(update.content.entries()).contains(start@[update.target as usize].kind.children()[j]),
        start.is_within(start@[update.target as usize].kind.children()[j], x),
    ensures
        start@.contains_key(x),
        !end@.contains_key(x),
{
    let target = update.target as usize;
    let reused = kept(update.content.entries());
    assert(abandoned_by(start, target, reused, start@[target].kind.children().len() as int, x));
    lemma_abandoned_inside(start, target, reused, x);
}

} // verus!
