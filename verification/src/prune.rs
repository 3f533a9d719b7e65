//! Freeing what an update abandons: a child of the target that is not kept
//! leaves the arena with everything below it.

use vstd::prelude::*;
use crate::arena::{slab_get_mut, slab_remove};
use crate::forest::{bounded, child_at, forest, lemma_within_depth, lemma_within_parent, linked, within, Depths, Nodes, Parents};
use crate::node::NodeKind;
use crate::update::flagged;
use crate::tree::Tree;

verus! {

/// What lies within a node of a forest is in the arena.
pub(crate) proof fn lemma_within_present(
    nodes: Nodes,
    parents: Parents,
    depths: Depths,
    limit: nat,
    root: usize,
    x: usize,
)
    requires
        forest(nodes, parents, depths, limit),
        nodes.contains_key(root),
        within(parents, depths, root, x),
    ensures
        nodes.contains_key(x),
{
    if x != root {
        assert(linked(nodes, parents, depths, x));
    }
}

/// The subtrees of two nodes of which neither lies within the other have
/// no node in common.
pub(crate) proof fn lemma_disjoint(parents: Parents, depths: Depths, a: usize, b: usize, x: usize)
    requires
        !within(parents, depths, a, b),
        !within(parents, depths, b, a),
        within(parents, depths, a, x),
    ensures
        !within(parents, depths, b, x),
    decreases depths[x],
{
    if x != a && x != b && within(parents, depths, b, x) {
        lemma_disjoint(parents, depths, a, b, parents[x].0);
    }
}

/// Of two children of one node neither lies within the other.
pub(crate) proof fn lemma_siblings(
    nodes: Nodes,
    parents: Parents,
    depths: Depths,
    limit: nat,
    p: usize,
    i: int,
    j: int,
)
    requires
        forest(nodes, parents, depths, limit),
        nodes.contains_key(p),
        0 <= i < nodes[p].kind.children().len(),
        0 <= j < nodes[p].kind.children().len(),
        i != j,
    ensures
        child_at(nodes, p, i) != child_at(nodes, p, j),
        !within(parents, depths, child_at(nodes, p, i), child_at(nodes, p, j)),
{
    let a = child_at(nodes, p, i);
    let b = child_at(nodes, p, j);
    assert(parents[a] == (p, i) && parents[b] == (p, j));
    assert(linked(nodes, parents, depths, a));
    assert(linked(nodes, parents, depths, b));
    if within(parents, depths, a, b) {
        assert(within(parents, depths, a, p));
        lemma_within_depth(parents, depths, a, p);
    }
}

/// What lies within a node is the node itself or lies within one of its
/// children.
pub(crate) proof fn lemma_within_child(
    nodes: Nodes,
    parents: Parents,
    depths: Depths,
    limit: nat,
    root: usize,
    x: usize,
) -> (i: int)
    requires
        forest(nodes, parents, depths, limit),
        nodes.contains_key(root),
        within(parents, depths, root, x),
        x != root,
    ensures
        0 <= i < nodes[root].kind.children().len(),
        within(parents, depths, child_at(nodes, root, i), x),
    decreases depths[x],
{
    assert(linked(nodes, parents, depths, x));
    let p = parents[x].0;
    if p == root {
        parents[x].1
    } else {
        let i = lemma_within_child(nodes, parents, depths, limit, root, p);
        assert(within(parents, depths, child_at(nodes, root, i), x));
        i
    }
}

/// The order in which a node and what lies below it leave the arena: the
/// node first, then what leaves with each of its children, child by child.
pub open spec fn clearing(nodes: Nodes, depths: Depths, limit: nat, id: usize) -> Seq<usize>
    decreases limit - depths[id], 0nat,
{
    if depths[id] < limit {
        seq![id] + clearing_all(nodes, depths, limit, nodes[id].kind.children(), depths[id])
    } else {
        seq![id]
    }
}

/// The order in which the given nodes, which lie deeper than `above`,
/// leave the arena with what lies below them, one node after the other.
pub open spec fn clearing_all(
    nodes: Nodes,
    depths: Depths,
    limit: nat,
    children: Seq<usize>,
    above: nat,
) -> Seq<usize>
    decreases limit - above - 1, children.len() + 1,
{
    if children.len() == 0 {
        Seq::empty()
    } else if above < depths[children.last()] && depths[children.last()] < limit {
        clearing_all(nodes, depths, limit, children.drop_last(), above) + clearing(
            nodes,
            depths,
            limit,
            children.last(),
        )
    } else {
        Seq::empty()
    }
}

/// Whether `x` lies within one of the first `n` of the given nodes.
pub open spec fn within_some(parents: Parents, depths: Depths, roots: Seq<usize>, n: int, x: usize) -> bool {
    exists|j: int| 0 <= j < n && j < roots.len() && #[trigger] within(parents, depths, roots[j], x)
}

impl Tree {
    /// Takes the node `root` and everything below it out of the arena. What
    /// lies below is read off the forest `base`, whose nodes within `root`
    /// the arena still holds.
    pub(crate) fn remove_subtree(&mut self, root: usize, Ghost(base): Ghost<Tree>)
        requires
            base.structured(),
            base@.contains_key(root),
            old(self)@.dom().finite(),
            bounded(old(self)@, old(self).released()),
            forall|x: usize| #[trigger]
                base.is_within(root, x) ==> old(self)@.contains_key(x) && old(self)@[x].kind
                    == base@[x].kind,
        ensures
            final(self)@.dom().finite(),
            bounded(final(self)@, final(self).released()),
            final(self).slots() == old(self).slots(),
            final(self).released() == clearing(
                base@,
                base.depths(),
                base.limit(),
                root,
            ).reverse() + old(self).released(),
            final(self).parents() == old(self).parents(),
            final(self).depths() == old(self).depths(),
            final(self).limit() == old(self).limit(),
            final(self).counted() == old(self).counted(),
            forall|x: usize| #[trigger]
                final(self)@.contains_key(x) <==> old(self)@.contains_key(x) && !base.is_within(
                    root,
                    x,
                ),
            forall|x: usize| #[trigger]
                final(self)@.contains_key(x) ==> final(self)@[x] == old(self)@[x],
        decreases base.limit() - base.depths()[root],
    {
        let ghost before = *self;
        let ghost parents = base.parents();
        let ghost depths = base.depths();
        proof {
            assert(base.is_within(root, root));
        }
        let node = slab_remove(&mut self.nodes, root);
        proof {
            assert(self@.dom() =~= before@.dom().remove(root));
        }
        let ghost kids = node.kind.children();
        let children: Vec<usize> = match node.kind {
            NodeKind::Shape(shape) => Vec::new(),
            NodeKind::Operation { operation, child } => {
                let mut one: Vec<usize> = Vec::new();
                one.push(child);
                one
            },
            NodeKind::Group(children) => children,
        };
        assert(children@ =~= kids);
        let mut i: usize = 0;
        proof {
            assert(children@.take(0) =~= Seq::<usize>::empty());
            assert(self.released() =~= clearing_all(
                base@,
                depths,
                base.limit(),
                children@.take(0),
                depths[root],
            ).reverse() + seq![root] + before.released());
        }
        while i < children.len()
            invariant
                i <= children.len(),
                children@ == base@[root].kind.children(),
                self.released() == clearing_all(
                    base@,
                    depths,
                    base.limit(),
                    children@.take(i as int),
                    depths[root],
                ).reverse() + seq![root] + before.released(),
                base.structured(),
                base@.contains_key(root),
                parents == base.parents(),
                depths == base.depths(),
                before@.dom().finite(),
                forall|x: usize| #[trigger]
                    base.is_within(root, x) ==> before@.contains_key(x) && before@[x].kind
                        == base@[x].kind,
                self@.dom().finite(),
                bounded(self@, self.released()),
                self.slots() == before.slots(),
                self.parents() == before.parents(),
                self.depths() == before.depths(),
                self.limit() == before.limit(),
                self.counted() == before.counted(),
                forall|x: usize| #[trigger]
                    self@.contains_key(x) <==> before@.contains_key(x) && x != root && !within_some(
                        parents,
                        depths,
                        children@,
                        i as int,
                        x,
                    ),
                forall|x: usize| #[trigger] self@.contains_key(x) ==> self@[x] == before@[x],
            decreases children.len() - i,
        {
            let ghost mid = *self;
            let child = children[i];
            proof {
                assert(child == child_at(base@, root, i as int));
                assert(parents[child] == (root, i as int));
                assert(linked(base@, parents, depths, child));
                assert forall|x: usize| #[trigger] base.is_within(child, x) implies mid@.contains_key(x)
                    && mid@[x].kind == base@[x].kind by {
                    lemma_within_parent(parents, depths, root, child, x);
                    lemma_within_depth(parents, depths, child, x);
                    assert(base.is_within(root, x));
                    assert(before@.contains_key(x));
                    assert(x != root);
                    if within_some(parents, depths, children@, i as int, x) {
                        let j = choose|j: int|
                            0 <= j < i && j < children@.len() && #[trigger] within(
                                parents,
                                depths,
                                children@[j],
                                x,
                            );
                        assert(children@[j] == child_at(base@, root, j));
                        lemma_siblings(base@, parents, depths, base.limit(), root, j, i as int);
                        lemma_siblings(base@, parents, depths, base.limit(), root, i as int, j);
                        lemma_disjoint(parents, depths, children@[j], child, x);
                        assert(false);
                    }
                    assert(mid@.contains_key(x));
                }
            }
            self.remove_subtree(child, Ghost(base));
            proof {
                let sooner = clearing_all(
                    base@,
                    depths,
                    base.limit(),
                    children@.take(i as int),
                    depths[root],
                );
                let now = clearing(base@, depths, base.limit(), child);
                assert(children@.take(i + 1).drop_last() =~= children@.take(i as int));
                assert(children@.take(i + 1).last() == child);
                assert(base@.contains_key(child));
                assert(clearing_all(
                    base@,
                    depths,
                    base.limit(),
                    children@.take(i + 1),
                    depths[root],
                ) == sooner + now);
                assert((sooner + now).reverse() =~= now.reverse() + sooner.reverse());
                assert(self.released() =~= (sooner + now).reverse() + seq![root]
                    + before.released());
                assert forall|x: usize| #[trigger]
                    self@.contains_key(x) <==> before@.contains_key(x) && x != root && !within_some(
                        parents,
                        depths,
                        children@,
                        i + 1,
                        x,
                    ) by {
                    if within_some(parents, depths, children@, i + 1, x) {
                        let j = choose|j: int|
                            0 <= j < i + 1 && j < children@.len() && #[trigger] within(
                                parents,
                                depths,
                                children@[j],
                                x,
                            );
                        if j < i {
                            assert(within_some(parents, depths, children@, i as int, x));
                        }
                    }
                    if within_some(parents, depths, children@, i as int, x) {
                        let j = choose|j: int|
                            0 <= j < i && j < children@.len() && #[trigger] within(
                                parents,
                                depths,
                                children@[j],
                                x,
                            );
                        assert(within_some(parents, depths, children@, i + 1, x));
                    }
                    if base.is_within(child, x) {
                        assert(within(parents, depths, children@[i as int], x));
                        assert(within_some(parents, depths, children@, i + 1, x));
                    }
                }
            }
            i += 1;
        }
        proof {
            assert(children@.take(i as int) =~= children@);
            let below = clearing_all(base@, depths, base.limit(), children@, depths[root]);
            assert(base@.contains_key(root));
            assert(clearing(base@, depths, base.limit(), root) == seq![root] + below);
            assert((seq![root] + below).reverse() =~= below.reverse() + seq![root]);
            assert forall|x: usize| #[trigger]
                self@.contains_key(x) <==> before@.contains_key(x) && !base.is_within(root, x) by {
                if within_some(parents, depths, children@, i as int, x) {
                    let j = choose|j: int|
                        0 <= j < i && j < children@.len() && #[trigger] within(
                            parents,
                            depths,
                            children@[j],
                            x,
                        );
                    assert(children@[j] == child_at(base@, root, j));
                    assert(parents[children@[j]] == (root, j));
                    assert(linked(base@, parents, depths, children@[j]));
                    lemma_within_parent(parents, depths, root, children@[j], x);
                }
                if base.is_within(root, x) && x != root {
                    let j = lemma_within_child(base@, parents, depths, base.limit(), root, x);
                    assert(within(parents, depths, children@[j], x));
                    assert(within_some(parents, depths, children@, i as int, x));
                }
            }
        }
    }
}

/// Whether `x` is, or lies below, one of the first `n` children of `target`
/// that are not in `reused`.
pub open spec fn abandoned_by(start: Tree, target: usize, reused: Set<usize>, n: int, x: usize) -> bool {
    exists|j: int|
        0 <= j < n && j < start@[target].kind.children().len() && !reused.contains(
            start@[target].kind.children()[j],
        ) && #[trigger] start.is_within(start@[target].kind.children()[j], x)
}

/// The order in which the nodes leave the arena that are, or lie below, one
/// of the first `n` children of `target` that are not in `reused`.
pub open spec fn freed_by(start: Tree, target: usize, reused: Set<usize>, n: int) -> Seq<usize>
    decreases n,
{
    if n <= 0 {
        Seq::empty()
    } else {
        let child = start@[target].kind.children()[n - 1];
        freed_by(start, target, reused, n - 1) + (if reused.contains(child) {
            Seq::empty()
        } else {
            clearing(start@, start.depths(), start.limit(), child)
        })
    }
}

/// The order in which the nodes leave the arena that are, or lie below, a
/// child of `target` that is not in `reused`.
pub open spec fn freed(start: Tree, target: usize, reused: Set<usize>) -> Seq<usize> {
    freed_by(start, target, reused, start@[target].kind.children().len() as int)
}

/// Whether `x` is, or lies below, a child of `target` that is not in
/// `reused`.
pub open spec fn abandoned(start: Tree, target: usize, reused: Set<usize>, x: usize) -> bool {
    abandoned_by(start, target, reused, start@[target].kind.children().len() as int, x)
}

impl Tree {
    /// Clears the update flags of the children that the target had, and,
    /// where `remove_unused` is set, frees each of them that was not reused,
    /// with everything below it.
    pub(crate) fn end_children_update(
        &mut self,
        children: Vec<usize>,
        remove_unused: bool,
        Ghost(start): Ghost<Tree>,
        Ghost(target): Ghost<usize>,
        Ghost(reused): Ghost<Set<usize>>,
    )
        requires
            start.wf(),
            start@.contains_key(target),
            children@ == start@[target].kind.children(),
            old(self)@.dom().finite(),
            bounded(old(self)@, old(self).released()),
            forall|x: usize| #[trigger] reused.contains(x) ==> children@.contains(x),
            forall|x: usize| #[trigger]
                start@.contains_key(x) && x != target ==> old(self)@.contains_key(x) && old(self)@[x]
                    == flagged(start@[x], children@.contains(x), reused.contains(x)),
        ensures
            final(self)@.dom().finite(),
            bounded(final(self)@, final(self).released()),
            final(self).slots() == old(self).slots(),
            final(self).parents() == old(self).parents(),
            final(self).depths() == old(self).depths(),
            final(self).limit() == old(self).limit(),
            final(self).counted() == old(self).counted(),
            !remove_unused ==> final(self).released() == old(self).released(),
            remove_unused ==> final(self).released() == freed(start, target, reused).reverse()
                + old(self).released(),
            forall|x: usize| #[trigger]
                final(self)@.contains_key(x) <==> old(self)@.contains_key(x) && !(remove_unused
                    && abandoned(start, target, reused, x)),
            forall|x: usize| #[trigger]
                final(self)@.contains_key(x) ==> final(self)@[x] == (if children@.contains(x) {
                    flagged(old(self)@[x], false, false)
                } else {
                    old(self)@[x]
                }),
    {
        let ghost before = *self;
        let ghost parents = start.parents();
        let ghost depths = start.depths();
        let mut i: usize = 0;
        proof {
            crate::grow::lemma_forest_children(start, target);
            assert(self.released() =~= freed_by(start, target, reused, 0).reverse()
                + before.released());
        }
        while i < children.len()
            invariant
                i <= children.len(),
                start.wf(),
                start@.contains_key(target),
                children@ == start@[target].kind.children(),
                parents == start.parents(),
                depths == start.depths(),
                crate::bounds::children_present(start@, start@[target].kind),
                before@.dom().finite(),
                forall|x: usize| #[trigger] reused.contains(x) ==> children@.contains(x),
                forall|x: usize| #[trigger]
                    start@.contains_key(x) && x != target ==> before@.contains_key(x) && before@[x]
                        == flagged(start@[x], children@.contains(x), reused.contains(x)),
                self@.dom().finite(),
                bounded(self@, self.released()),
                self.slots() == before.slots(),
                self.parents() == before.parents(),
                self.depths() == before.depths(),
                self.limit() == before.limit(),
                self.counted() == before.counted(),
                !remove_unused ==> self.released() == before.released(),
                remove_unused ==> self.released() == freed_by(
                    start,
                    target,
                    reused,
                    i as int,
                ).reverse() + before.released(),
                forall|x: usize| #[trigger]
                    self@.contains_key(x) <==> before@.contains_key(x) && !(remove_unused
                        && abandoned_by(start, target, reused, i as int, x)),
                forall|x: usize| #[trigger]
                    self@.contains_key(x) ==> self@[x] == (if children@.take(i as int).contains(x) {
                        flagged(before@[x], false, false)
                    } else {
                        before@[x]
                    }),
            decreases children.len() - i,
        {
            let ghost mid = *self;
            let child = children[i];
            proof {
                assert(start@.contains_key(start@[target].kind.children()[i as int]));
                assert(child == child_at(start@, target, i as int));
                assert(parents[child] == (target, i as int));
                assert(linked(start@, parents, depths, child));
                assert(children@.contains(child));
                if abandoned_by(start, target, reused, i as int, child) {
                    let j = choose|j: int|
                        0 <= j < i && j < start@[target].kind.children().len() && !reused.contains(
                            start@[target].kind.children()[j],
                        ) && #[trigger] start.is_within(start@[target].kind.children()[j], child);
                    lemma_siblings(start@, parents, depths, start.limit(), target, j, i as int);
                }
                assert(mid@.contains_key(child));
            }
            let mut was_reused = true;
            match slab_get_mut(&mut self.nodes, child) {
                Some(node) => {
                    node.owned = false;
                    was_reused = node.reused;
                    node.reused = false;
                },
                None => {},
            }
            let ghost cleared = *self;
            proof {
                assert(self@.dom() =~= mid@.dom());
                assert(was_reused == reused.contains(child)) by {
                    if children@.take(i as int).contains(child) {
                        let j = children@.take(i as int).index_of(child);
                        assert(children@[j] == child);
                        lemma_siblings(start@, parents, depths, start.limit(), target, j, i as int);
                    }
                }
            }
            if !was_reused && remove_unused {
                proof {
                    assert forall|x: usize| #[trigger] start.is_within(child, x) implies self@.contains_key(
                        x,
                    ) && self@[x].kind == start@[x].kind by {
                        lemma_within_present(start@, parents, depths, start.limit(), child, x);
                        lemma_within_depth(parents, depths, child, x);
                        assert(x != target);
                        assert(before@.contains_key(x));
                        if abandoned_by(start, target, reused, i as int, x) {
                            let j = choose|j: int|
                                0 <= j < i && j < start@[target].kind.children().len()
                                    && !reused.contains(start@[target].kind.children()[j])
                                    && #[trigger] start.is_within(
                                    start@[target].kind.children()[j],
                                    x,
                                );
                            lemma_siblings(start@, parents, depths, start.limit(), target, j, i as int);
                            lemma_siblings(start@, parents, depths, start.limit(), target, i as int, j);
                            lemma_disjoint(parents, depths, children@[j], child, x);
                            assert(false);
                        }
                        assert(mid@.contains_key(x));
                    }
                }
                self.remove_subtree(child, Ghost(start));
            }
            proof {
                let sooner = freed_by(start, target, reused, i as int);
                let now = if reused.contains(child) {
                    Seq::<usize>::empty()
                } else {
                    clearing(start@, start.depths(), start.limit(), child)
                };
                assert(freed_by(start, target, reused, i + 1) == sooner + now);
                assert((sooner + now).reverse() =~= now.reverse() + sooner.reverse());
                if remove_unused {
                    assert(self.released() =~= (sooner + now).reverse() + before.released());
                }
                let done = children@.take(i as int);
                let more = children@.take(i + 1);
                assert(more =~= done.push(child));
                assert forall|x: usize| #[trigger]
                    self@.contains_key(x) <==> before@.contains_key(x) && !(remove_unused
                        && abandoned_by(start, target, reused, i + 1, x)) by {
                    if abandoned_by(start, target, reused, i + 1, x) {
                        let j = choose|j: int|
                            0 <= j < i + 1 && j < start@[target].kind.children().len()
                                && !reused.contains(start@[target].kind.children()[j])
                                && #[trigger] start.is_within(start@[target].kind.children()[j], x);
                        if j < i {
                            assert(abandoned_by(start, target, reused, i as int, x));
                        }
                    }
                    if abandoned_by(start, target, reused, i as int, x) {
                        let j = choose|j: int|
                            0 <= j < i && j < start@[target].kind.children().len() && !reused.contains(
                                start@[target].kind.children()[j],
                            ) && #[trigger] start.is_within(start@[target].kind.children()[j], x);
                        assert(abandoned_by(start, target, reused, i + 1, x));
                    }
                    if !was_reused && start.is_within(child, x) {
                        assert(start.is_within(start@[target].kind.children()[i as int], x));
                        assert(abandoned_by(start, target, reused, i + 1, x));
                    }
                    assert(cleared@.contains_key(x) == mid@.contains_key(x));
                }
                assert forall|x: usize| #[trigger] self@.contains_key(x) implies self@[x] == (if more.contains(
                    x,
                ) {
                    flagged(before@[x], false, false)
                } else {
                    before@[x]
                }) by {
                    assert(cleared@.contains_key(x));
                    assert(mid@.contains_key(x));
                    if x == child {
                        assert(more[i as int] == child);
                        if done.contains(child) {
                            let j = done.index_of(child);
                            assert(children@[j] == child);
                            lemma_siblings(start@, parents, depths, start.limit(), target, j, i as int);
                        }
                    } else if done.contains(x) {
                        let j = done.index_of(x);
                        assert(more[j] == x);
                    } else if more.contains(x) {
                        let j = more.index_of(x);
                        assert(done[j] == x);
                    }
                }
            }
            i += 1;
        }
        proof {
            assert(children@.take(i as int) =~= children@);
        }
    }
}

} // verus!
