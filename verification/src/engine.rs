//! The update engine: one node of a tree is rewritten, or the tree stays as
//! it was.

use vstd::prelude::*;
use crate::arena::slab_remove;
use crate::arith::Arithmetic;
use crate::bounds::measured;
use crate::error::NodeUpdateResult;
use crate::forest::{bounded, child_at, forest, issue, lemma_within_depth, linked, settled, within, Parents};
use crate::grow::{copy_of, grown, layout, rooted, spent, wire};
use crate::node::NodeKind;
use crate::protocol::{NewNode, NodeContent, NodeUpdate, NodeUpdateResponse};
use crate::prune::{abandoned, freed, lemma_siblings, lemma_within_present};
use crate::tree::Tree;
use crate::update::{
    flagged, kept, kind_of, lemma_placed_rewrite, listing, placed, progress, refusal, same_kinds,
    written,
};

verus! {

/// The upshot of a successful update: the tree `end` is the tree `start`
/// with the target rewritten as `update` asks, the new nodes at the indices
/// that `start` was about to issue, each child of the target that the update
/// does not keep gone with everything below it, and everything else as it
/// was.
pub open spec fn rewritten<A: Arithmetic>(
    arith: &A,
    start: Tree,
    end: Tree,
    update: NodeUpdate,
    new_nodes: Seq<u32>,
) -> bool {
    let target = update.target as usize;
    let entries = update.content.entries();
    let ids = start.upcoming(update.content.count());
    let kids = end@[target].kind.children();
    &&& new_nodes == wire(ids)
    &&& ids.no_duplicates()
    &&& forall|i: int|
        0 <= i < ids.len() ==> {
            let id = #[trigger] ids[i];
            end@.contains_key(id) && !start@.contains_key(id) && measured(arith, end@, id)
        }
    &&& end@.contains_key(target)
    &&& kind_of(update.content, end@[target].kind, kids)
    &&& measured(arith, end@, target)
    &&& placed(end@, entries, kids)
    &&& listing(end@, entries, kids) == ids
    &&& forall|x: usize| #[trigger]
        start@.contains_key(x) ==> (end@.contains_key(x) <==> !abandoned(
            start,
            target,
            kept(entries),
            x,
        ))
    &&& forall|x: usize| #[trigger]
        end@.contains_key(x) && start@.contains_key(x) && x != target ==> end@[x] == start@[x]
    &&& forall|x: usize| #[trigger] end@.contains_key(x) ==> start@.contains_key(x) || ids.contains(x)
    &&& end.released() == freed(start, target, kept(entries)).reverse() + spent(
        start.released(),
        update.content.count(),
    )
}

/// The indices that a tree issues next are the same after some allocations
/// have been undone, the last one first.
pub(crate) proof fn lemma_issue_restored(tree: Tree, n: nat, m: nat)
    ensures
        issue(tree@, tree.upcoming(n) + spent(tree.released(), n), m) == tree.upcoming(m),
{
    let released = tree.released();
    let restored = tree.upcoming(n) + spent(released, n);
    assert(issue(tree@, restored, m) =~= tree.upcoming(m));
}

/// The parents of the nodes that are left.
pub open spec fn surviving(parents: Parents, nodes: crate::forest::Nodes) -> Parents {
    Map::new(|c: usize| parents.contains_key(c) && nodes.contains_key(c), |c: usize| parents[c])
}

/// What is left of a rewritten tree after its abandoned children are gone
/// is a forest.
pub(crate) proof fn lemma_pruned_forest<A: Arithmetic>(
    arith: &A,
    start: Tree,
    now: Tree,
    end: crate::forest::Nodes,
    update: NodeUpdate,
    reused: Set<usize>,
)
    requires
        start.wf(),
        start@.contains_key(update.target as usize),
        written(arith, start, now, update, reused),
        end.dom().finite(),
        forall|x: usize| #[trigger]
            end.contains_key(x) <==> now@.contains_key(x) && !abandoned(
                start,
                update.target as usize,
                reused,
                x,
            ),
        forall|x: usize| #[trigger]
            end.contains_key(x) ==> end[x].kind == now@[x].kind,
    ensures
        forest(end, surviving(now.parents(), end), now.depths(), now.limit()),
        end.contains_key(0),
{
    let target = update.target as usize;
    let p0 = start.parents();
    let d0 = start.depths();
    let p3 = now.parents();
    let p4 = surviving(p3, end);
    let before = start@[target].kind.children();
    crate::grow::lemma_forest_children(start, target);
    // a node that is abandoned is a node of the start, other than the target
    assert forall|x: usize| abandoned(start, target, reused, x) implies start@.contains_key(x) && x
        != target && x != 0 by {
        let j = choose|j: int|
            0 <= j < before.len() && j < before.len() && !reused.contains(before[j])
                && #[trigger] start.is_within(before[j], x);
        let u = before[j];
        assert(start@.contains_key(before[j]));
        assert(u == child_at(start@, target, j));
        assert(linked(start@, p0, d0, u));
        lemma_within_present(start@, p0, d0, start.limit(), u, x);
        lemma_within_depth(p0, d0, u, x);
    }
    assert(end.contains_key(0));
    assert forall|id: usize, i: int|
        end.contains_key(id) && 0 <= i < end[id].kind.children().len() implies {
        let c = #[trigger] child_at(end, id, i);
        p4.contains_key(c) && p4[c] == (id, i)
    } by {
        let c = child_at(end, id, i);
        assert(c == child_at(now@, id, i));
        assert(p3.contains_key(c) && p3[c] == (id, i));
        assert(linked(now@, p3, now.depths(), c));
        if abandoned(start, target, reused, c) {
            let j = choose|j: int|
                0 <= j < before.len() && j < before.len() && !reused.contains(before[j])
                    && #[trigger] start.is_within(before[j], c);
            let u = before[j];
            assert(u == child_at(start@, target, j));
            if id == target {
                assert(now@[target].kind.children()[i] == c);
                assert(reused.contains(c));
                let m = before.index_of(c);
                lemma_siblings(start@, p0, d0, start.limit(), target, j, m);
            } else {
                assert(p0.contains_key(c) && p0[c] == (id, i));
                if c == u {
                    assert(p0[u] == (target, j));
                } else {
                    assert(within(p0, d0, u, id));
                    assert(start.is_within(before[j], id));
                    assert(abandoned(start, target, reused, id));
                }
            }
        }
    }
    assert forall|c: usize| #[trigger] p4.contains_key(c) implies linked(
        end,
        p4,
        now.depths(),
        c,
    ) by {
        assert(linked(now@, p3, now.depths(), c));
        let p = p3[c].0;
        if abandoned(start, target, reused, p) {
            let j = choose|j: int|
                0 <= j < before.len() && j < before.len() && !reused.contains(before[j])
                    && #[trigger] start.is_within(before[j], p);
            let u = before[j];
            assert(start@.contains_key(p) && p != target);
            assert(now@[p].kind == start@[p].kind);
            assert(child_at(start@, p, p3[c].1) == c);
            assert(p0.contains_key(c) && p0[c] == (p, p3[c].1));
            assert(linked(start@, p0, d0, c));
            assert(within(p0, d0, u, c));
            assert(start.is_within(before[j], c));
            assert(abandoned(start, target, reused, c));
        }
        assert(end.contains_key(p));
        assert(child_at(end, p, p3[c].1) == c);
    }
}

/// What is abandoned is a node of the tree, other than the target and the
/// root.
pub(crate) proof fn lemma_abandoned_inside(start: Tree, target: usize, reused: Set<usize>, x: usize)
    requires
        start.wf(),
        start@.contains_key(target),
        abandoned(start, target, reused, x),
    ensures
        start@.contains_key(x),
        x != target,
        x != 0,
{
    let before = start@[target].kind.children();
    let p0 = start.parents();
    let d0 = start.depths();
    crate::grow::lemma_forest_children(start, target);
    let j = choose|j: int|
        0 <= j < before.len() && j < before.len() && !reused.contains(before[j])
            && #[trigger] start.is_within(before[j], x);
    let u = before[j];
    assert(start@.contains_key(before[j]));
    assert(u == child_at(start@, target, j));
    assert(linked(start@, p0, d0, u));
    lemma_within_present(start@, p0, d0, start.limit(), u, x);
    lemma_within_depth(p0, d0, u, x);
}

/// A box that is right for a node is right in every arena that holds the
/// node as it is and its children with their boxes.
pub(crate) proof fn lemma_measured_same<A: Arithmetic>(
    arith: &A,
    before: crate::forest::Nodes,
    after: crate::forest::Nodes,
    id: usize,
)
    requires
        measured(arith, before, id),
        after[id].kind == before[id].kind,
        after[id].aabb == before[id].aabb,
        forall|j: int|
            0 <= j < before[id].kind.children().len() ==> after[#[trigger] before[id].kind.children()[j]].aabb
                == before[before[id].kind.children()[j]].aabb,
    ensures
        measured(arith, after, id),
{
    let kind = before[id].kind;
    match kind {
        NodeKind::Shape(shape) => {},
        NodeKind::Operation { operation, child } => {
            assert(kind.children()[0] == child);
        },
        NodeKind::Group(children) => {
            assert forall|j: int| 0 <= j < children@.len() implies after[children@[j]].aabb
                == before[children@[j]].aabb by {
                assert(kind.children()[j] == children@[j]);
            }
            assert(crate::bounds::child_boxes(after, children@) =~= crate::bounds::child_boxes(
                before,
                children@,
            ));
        },
    }
}

impl Tree {
    /// Rewrites the node at `update.target` as `update.content` asks.
    ///
    /// The children that the content keeps by index stay, with all below
    /// them. The subtrees that it describes are allocated, each child before
    /// its parent, and their indices are returned in that order. The children
    /// that the target had and the content does not keep are freed with all
    /// below them. An update that is refused leaves the tree as it was.
    pub fn update_node<A: Arithmetic>(&mut self, update: NodeUpdate, arith: &A) -> (result:
        NodeUpdateResult<NodeUpdateResponse>)
        requires
            old(self).wf(),
            old(self).slots() + update.content.count() <= 0x1_0000_0000,
        ensures
            final(self).wf(),
            match result {
                Err(e) => {
                    &&& refusal(*old(self), update) == Some(e)
                    &&& final(self)@ == old(self)@
                    &&& forall|n: nat| #[trigger] final(self).upcoming(n) == old(self).upcoming(n)
                },
                Ok(response) => {
                    &&& refusal(*old(self), update) is None
                    &&& rewritten(arith, *old(self), *final(self), update, response.new_nodes@)
                },
            },
    {
        let ghost start = *self;
        let ghost asked = update;
        let target = update.target as usize;
        let former_children = match self.begin_children_update(target) {
            Err(e) => {
                return Err(e);
            },
            Ok(children) => children,
        };
        let mut new_nodes: Vec<u32> = Vec::new();
        let (outcome, Ghost(reused)) = self.update_node_inner(
            &mut new_nodes,
            update,
            arith,
            Ghost(start),
        );
        match outcome {
            Err(e) => {
                let ghost ids = start.upcoming(new_nodes@.len() as nat);
                let ghost mid = *self;
                self.discard(&new_nodes, Ghost(ids));
                proof {
                    assert forall|x: usize| #[trigger] start@.contains_key(x) && x != target implies self@.contains_key(
                        x,
                    ) && self@[x] == flagged(
                        start@[x],
                        former_children@.contains(x),
                        reused.contains(x),
                    ) by {
                        assert(progress(start, mid, target, reused, ids));
                        assert(mid@.contains_key(x));
                        assert(mid@[x] == flagged(
                            start@[x],
                            start@[target].kind.children().contains(x),
                            reused.contains(x),
                        ));
                        if ids.contains(x) {
                            let j = ids.index_of(x);
                            assert(!start@.contains_key(ids[j]));
                        }
                        assert(!ids.contains(x));
                        assert(self@.contains_key(x));
                        assert(former_children@ == start@[target].kind.children());
                    }
                }
                let ghost bare = *self;
                self.end_children_update(
                    former_children,
                    false,
                    Ghost(start),
                    Ghost(target),
                    Ghost(reused),
                );
                proof {
                    self.parents@ = start.parents();
                    self.depths@ = start.depths();
                    self.limit@ = start.limit();
                    assert forall|x: usize| self@.contains_key(x) == start@.contains_key(x) by {
                        assert(self@.contains_key(x) == bare@.contains_key(x));
                        if ids.contains(x) {
                            let j = ids.index_of(x);
                            assert(!start@.contains_key(ids[j]));
                        }
                        if start@.contains_key(x) {
                            assert(mid@.contains_key(x));
                        }
                    }
                    assert forall|x: usize| #[trigger] start@.contains_key(x) implies self@[x]
                        == start@[x] by {
                        assert(self@.contains_key(x));
                        assert(mid@.contains_key(x));
                        assert(bare@.contains_key(x));
                    }
                    assert(self@ =~= start@);
                    assert forall|n: nat| #[trigger] self.upcoming(n) == start.upcoming(n) by {
                        lemma_issue_restored(start, new_nodes@.len() as nat, n);
                    }
                }
                Err(e)
            },
            Ok(done) => {
                let ghost now = *self;
                let ghost ids = start.upcoming(asked.content.count());
                let ghost entries = asked.content.entries();
                self.end_children_update(
                    former_children,
                    true,
                    Ghost(start),
                    Ghost(target),
                    Ghost(reused),
                );
                proof {
                    lemma_pruned_forest(arith, start, now, self@, asked, reused);
                    self.parents@ = surviving(now.parents(), self@);
                    assert forall|x: usize| abandoned(start, target, reused, x) implies start@.contains_key(
                        x,
                    ) && x != target && x != 0 by {
                        lemma_abandoned_inside(start, target, reused, x);
                    }
                    assert(settled(self@)) by {
                        assert forall|x: usize| #[trigger] self@.contains_key(x) implies !self@[x].owned
                            && !self@[x].reused by {
                            assert(now@.contains_key(x));
                            if x != target && !start@.contains_key(x) {
                                let j = ids.index_of(x);
                                assert(ids[j] == x);
                                if former_children@.contains(x) {
                                    let c = former_children@.index_of(x);
                                    crate::grow::lemma_forest_children(start, target);
                                    assert(start@.contains_key(start@[target].kind.children()[c]));
                                }
                            }
                        }
                    }
                    assert(same_kinds(now@, self@, ids)) by {
                        assert forall|i: int| 0 <= i < ids.len() implies self@.contains_key(
                            #[trigger] ids[i],
                        ) && self@[ids[i]].kind == now@[ids[i]].kind by {
                            assert(now@.contains_key(ids[i]));
                        }
                    }
                    lemma_placed_rewrite(now@, self@, entries, now@[target].kind.children());
                    assert(self@.contains_key(target));
                    assert forall|id: usize| #[trigger]
                        self@.contains_key(id) && measured(arith, now@, id) implies measured(
                        arith,
                        self@,
                        id,
                    ) by {
                        assert(now@.contains_key(id));
                        assert forall|j: int| 0 <= j < now@[id].kind.children().len() implies self@[#[trigger] now@[id].kind.children()[j]].aabb
                            == now@[now@[id].kind.children()[j]].aabb by {
                            let c = child_at(self@, id, j);
                            assert(linked(self@, self.parents(), self.depths(), c));
                        }
                        lemma_measured_same(arith, now@, self@, id);
                    }
                    assert forall|i: int| 0 <= i < ids.len() implies {
                        let id = #[trigger] ids[i];
                        self@.contains_key(id) && !start@.contains_key(id) && measured(
                            arith,
                            self@,
                            id,
                        )
                    } by {
                        assert(now@.contains_key(ids[i]));
                        assert(measured(arith, now@, ids[i]));
                    }
                    assert forall|x: usize| #[trigger]
                        self@.contains_key(x) && start@.contains_key(x) && x != target implies self@[x]
                        == start@[x] by {
                        assert(now@.contains_key(x));
                    }
                    assert forall|x: usize| #[trigger] start@.contains_key(x) implies (
                    self@.contains_key(x) <==> !abandoned(start, target, kept(entries), x)) by {
                        if x != target {
                            assert(now@.contains_key(x));
                        }
                    }
                }
                Ok(NodeUpdateResponse { new_nodes })
            },
        }
    }

    /// Creates a tree and rewrites its root as `content` asks.
    pub fn new_with_content<A: Arithmetic>(content: NodeContent, arith: &A) -> (result:
        NodeUpdateResult<(Tree, NodeUpdateResponse)>)
        requires
            1 + content.count() <= 0x1_0000_0000,
        ensures
            exists|start: Tree| #[trigger]
                start.is_new() && match result {
                    Err(e) => refusal(start, NodeUpdate { target: 0, content }) == Some(e),
                    Ok(made) => {
                        &&& made.0.wf()
                        &&& refusal(start, NodeUpdate { target: 0, content }) is None
                        &&& rewritten(
                            arith,
                            start,
                            made.0,
                            NodeUpdate { target: 0, content },
                            made.1.new_nodes@,
                        )
                    },
                },
    {
        let mut tree = Tree::new();
        let ghost start = tree;
        proof {
            assert(start@.dom() =~= set![0usize]);
        }
        let result = match tree.update_node(NodeUpdate { target: 0, content }, arith) {
            Err(e) => Err(e),
            Ok(response) => Ok((tree, response)),
        };
        proof {
            assert(start.is_new());
        }
        result
    }

    /// Allocates the nodes of `node`, each child before its parent, and
    /// appends their indices to `new_indices` in that order. Returns the
    /// index of the root of the new subtree, which has no parent.
    pub fn add_new_node<A: Arithmetic>(
        &mut self,
        new_indices: &mut Vec<u32>,
        node: NewNode,
        arith: &A,
    ) -> (index: u32)
        requires
            old(self).wf(),
            old(self).slots() + node.count() <= 0x1_0000_0000,
        ensures
            final(self).wf(),
            grown(*old(self), *final(self), old(self).upcoming(node.count())),
            rooted(*old(self), *final(self), old(self).upcoming(node.count())),
            final(new_indices)@ == old(new_indices)@ + wire(old(self).upcoming(node.count())),
            index as usize == old(self).upcoming(node.count()).last(),
            copy_of(final(self)@, index as usize, node),
            layout(final(self)@, index as usize, node) == old(self).upcoming(node.count()),
            forall|i: int|
                0 <= i < node.count() ==> measured(
                    arith,
                    final(self)@,
                    #[trigger] old(self).upcoming(node.count())[i],
                ),
            !final(self).parents().contains_key(index as usize),
    {
        let ghost before = *self;
        let ghost ids = before.upcoming(node.count());
        let index = self.materialize(new_indices, node, arith, Ghost(0));
        proof {
            assert forall|x: usize| #[trigger] self@.contains_key(x) implies !self@[x].owned
                && !self@[x].reused by {
                if !before@.contains_key(x) {
                    let j = ids.index_of(x);
                    assert(ids[j] == x);
                }
            }
        }
        index
    }

    /// Takes the nodes that a refused update has allocated out of the arena
    /// again, the last one first.
    pub(crate) fn discard(&mut self, new_nodes: &Vec<u32>, Ghost(ids): Ghost<Seq<usize>>)
        requires
            old(self)@.dom().finite(),
            bounded(old(self)@, old(self).released()),
            new_nodes@ == wire(ids),
            ids.no_duplicates(),
            forall|i: int| 0 <= i < ids.len() ==> old(self)@.contains_key(#[trigger] ids[i]),
        ensures
            final(self)@.dom().finite(),
            bounded(final(self)@, final(self).released()),
            final(self).released() == ids + old(self).released(),
            final(self).parents() == old(self).parents(),
            final(self).depths() == old(self).depths(),
            final(self).limit() == old(self).limit(),
            final(self).counted() == old(self).counted(),
            forall|x: usize| #[trigger]
                final(self)@.contains_key(x) <==> old(self)@.contains_key(x) && !ids.contains(x),
            forall|x: usize| #[trigger]
                final(self)@.contains_key(x) ==> final(self)@[x] == old(self)@[x],
            final(self)@.dom().len() + ids.len() == old(self)@.dom().len(),
    {
        let ghost before = *self;
        let mut left: usize = new_nodes.len();
        proof {
            assert(ids.subrange(left as int, ids.len() as int) + before.released()
                =~= before.released());
        }
        while left > 0
            invariant
                left <= new_nodes.len(),
                new_nodes@ == wire(ids),
                ids.no_duplicates(),
                before@.dom().finite(),
                forall|i: int| 0 <= i < ids.len() ==> before@.contains_key(#[trigger] ids[i]),
                bounded(before@, before.released()),
                self@.dom().finite(),
                bounded(self@, self.released()),
                self.released() == ids.subrange(left as int, ids.len() as int) + before.released(),
                self.parents() == before.parents(),
                self.depths() == before.depths(),
                self.limit() == before.limit(),
                self.counted() == before.counted(),
                forall|x: usize| #[trigger]
                    self@.contains_key(x) <==> before@.contains_key(x) && !ids.subrange(
                        left as int,
                        ids.len() as int,
                    ).contains(x),
                forall|x: usize| #[trigger] self@.contains_key(x) ==> self@[x] == before@[x],
                self@.dom().len() + (ids.len() - left) == before@.dom().len(),
            decreases left,
        {
            let ghost mid = *self;
            left -= 1;
            let key = new_nodes[left] as usize;
            proof {
                assert(before@.contains_key(ids[left as int]));
                assert(key == ids[left as int]);
                let gone = ids.subrange(left + 1, ids.len() as int);
                if gone.contains(key) {
                    let j = gone.index_of(key);
                    assert(ids[left + 1 + j] == key);
                }
                assert(mid@.contains_key(key));
            }
            let node = slab_remove(&mut self.nodes, key);
            proof {
                let gone = ids.subrange(left + 1, ids.len() as int);
                let more = ids.subrange(left as int, ids.len() as int);
                assert(more =~= seq![key] + gone);
                assert(self.released() =~= more + before.released());
                assert(self@.dom() =~= mid@.dom().remove(key));
                assert forall|x: usize| #[trigger]
                    self@.contains_key(x) <==> before@.contains_key(x) && !more.contains(x) by {
                    if more.contains(x) && x != key {
                        let j = more.index_of(x);
                        assert(gone[j - 1] == x);
                    }
                    if gone.contains(x) {
                        let j = gone.index_of(x);
                        assert(more[j + 1] == x);
                    }
                    assert(more[0] == key);
                }
            }
        }
        proof {
            assert(ids.subrange(0, ids.len() as int) =~= ids);
        }
    }
}

} // verus!
