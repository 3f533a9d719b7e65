//! Rewriting one node of a tree: what an update asks for, and when it is
//! refused.

use vstd::prelude::*;
use crate::arena::{slab_get, slab_get_mut};
use crate::arith::Arithmetic;
use crate::error::NodeUpdateError;
use crate::forest::{child_at, forest, lemma_place, linked, Depths, Nodes, Parents};
use crate::bounds::{children_present, kind_bounds, measured};
use crate::grow::{
    agrees, copy_of, fresh, grown, layout, lemma_bounds_extend, lemma_copy_extends,
    lemma_forest_children, lemma_forest_integrity, lemma_issue_split, rooted,
    spent, wire,
};
use crate::node::{Node, NodeKind};
use crate::protocol::{ChildUpdate, NodeContent, NodeUpdate};
use crate::tree::Tree;

verus! {

/// Whether an entry before this one keeps the index `k`.
pub open spec fn kept_before(prefix: Seq<ChildUpdate>, k: u32) -> bool {
    prefix.contains(ChildUpdate::KeepIndex(k))
}

/// The reason for which one entry of an update is refused, if it is. The
/// entries before it are `prefix`, and the tree before the update is `tree`.
/// A kept index must be a node of the tree or one that the entries before
/// have allocated, then a child of the target, then not kept before.
pub open spec fn verdict(
    tree: Tree,
    target: usize,
    prefix: Seq<ChildUpdate>,
    entry: ChildUpdate,
) -> Option<NodeUpdateError> {
    match entry {
        ChildUpdate::NewNode(node) => None,
        ChildUpdate::KeepIndex(k) => if !tree@.contains_key(k as usize) && !tree.upcoming(
            ChildUpdate::count_all(prefix),
        ).contains(k as usize) {
            Some(NodeUpdateError::InvalidKeepIndex(k))
        } else if !tree@[target].kind.children().contains(k as usize) {
            Some(NodeUpdateError::UnownedKeepIndex(k))
        } else if kept_before(prefix, k) {
            Some(NodeUpdateError::DuplicateKeepIndex(k))
        } else {
            None
        },
    }
}

/// The reason for which the first entry that is refused is refused.
pub open spec fn first_refusal(tree: Tree, target: usize, entries: Seq<ChildUpdate>) -> Option<
    NodeUpdateError,
>
    decreases entries.len(),
{
    if entries.len() == 0 {
        None
    } else {
        match first_refusal(tree, target, entries.drop_last()) {
            Some(e) => Some(e),
            None => verdict(tree, target, entries.drop_last(), entries.last()),
        }
    }
}

/// The reason for which `tree` refuses `update`, if it does.
pub open spec fn refusal(tree: Tree, update: NodeUpdate) -> Option<NodeUpdateError> {
    if !tree@.contains_key(update.target as usize) {
        Some(NodeUpdateError::InvalidTarget)
    } else {
        first_refusal(tree, update.target as usize, update.content.entries())
    }
}

/// The roots `kids` are what the entries ask for: a kept index itself, and
/// for a new node the root of a copy of it.
pub open spec fn placed(nodes: Nodes, entries: Seq<ChildUpdate>, kids: Seq<usize>) -> bool
    decreases entries.len(),
{
    kids.len() == entries.len() && (entries.len() == 0 || (placed(
        nodes,
        entries.drop_last(),
        kids.drop_last(),
    ) && match entries.last() {
        ChildUpdate::KeepIndex(k) => kids.last() == k as usize,
        ChildUpdate::NewNode(node) => copy_of(nodes, kids.last(), node),
    }))
}

/// The indices of the copies that the entries allocated, in the order of
/// the entries and each copy in its layout.
pub open spec fn listing(nodes: Nodes, entries: Seq<ChildUpdate>, kids: Seq<usize>) -> Seq<usize>
    decreases entries.len(),
{
    if entries.len() == 0 || kids.len() != entries.len() {
        Seq::empty()
    } else {
        listing(nodes, entries.drop_last(), kids.drop_last()) + (match entries.last() {
            ChildUpdate::KeepIndex(k) => Seq::empty(),
            ChildUpdate::NewNode(node) => layout(nodes, kids.last(), node),
        })
    }
}

/// The kind that the content gives the target, over the given children.
pub open spec fn kind_of(content: NodeContent, kind: NodeKind, kids: Seq<usize>) -> bool {
    &&& kind.children() == kids
    &&& match content {
        NodeContent::Shape(shape) => kind == NodeKind::Shape(shape),
        NodeContent::Operation { operation, child } => kind == (NodeKind::Operation {
            operation,
            child: kids[0],
        }),
        NodeContent::Group { new_children } => kind is Group,
    }
}

/// A node with the given update flags.
pub open spec fn flagged(node: Node, owned: bool, reused: bool) -> Node {
    Node { kind: node.kind, owned, reused, aabb: node.aabb }
}

/// The indices that the entries of `prefix` keep.
pub open spec fn kept(prefix: Seq<ChildUpdate>) -> Set<usize> {
    Set::new(|x: usize| exists|k: u32| k as usize == x && #[trigger] kept_before(prefix, k))
}

/// The state of a tree in the middle of an update of `target`: what the tree
/// `start` held is there, the children of the target flagged as owned and the
/// ones in `reused` as reused; the nodes at `ids` are new, and they are the
/// indices that `start` was about to issue.
pub open spec fn progress(start: Tree, now: Tree, target: usize, reused: Set<usize>, ids: Seq<usize>) -> bool {
    &&& ids == start.upcoming(ids.len())
    &&& forall|x: usize| #[trigger]
        start@.contains_key(x) ==> now@.contains_key(x) && now@[x] == flagged(
            start@[x],
            start@[target].kind.children().contains(x),
            reused.contains(x),
        )
    &&& forall|x: usize| #[trigger]
        now@.contains_key(x) ==> start@.contains_key(x) || ids.contains(x)
    &&& forall|i: int|
        0 <= i < ids.len() ==> now@.contains_key(#[trigger] ids[i]) && !start@.contains_key(ids[i])
    &&& ids.no_duplicates()
    &&& now@.dom().len() == start@.dom().len() + ids.len()
    &&& now.released() == spent(start.released(), ids.len())
    &&& forall|x: usize| #[trigger]
        start@.contains_key(x) ==> now.depths()[x] == start.depths()[x]
    &&& now.limit() >= start.limit()
    &&& forall|x: usize| #[trigger]
        start.parents().contains_key(x) ==> now.parents().contains_key(x) && now.parents()[x]
            == start.parents()[x]
    &&& forall|x: usize| #[trigger]
        now.parents().contains_key(x) ==> start.parents().contains_key(x) || ids.contains(x)
}

/// A forest stays one when update flags change.
pub(crate) proof fn lemma_forest_flags(
    nodes: Nodes,
    nodes2: Nodes,
    parents: Parents,
    depths: Depths,
    limit: nat,
)
    requires
        forest(nodes, parents, depths, limit),
        nodes2.dom() == nodes.dom(),
        forall|x: usize| #[trigger] nodes.contains_key(x) ==> nodes2[x].kind == nodes[x].kind,
    ensures
        forest(nodes2, parents, depths, limit),
{
    assert forall|id: usize, i: int|
        nodes2.contains_key(id) && 0 <= i < nodes2[id].kind.children().len() implies {
        let c = #[trigger] child_at(nodes2, id, i);
        parents.contains_key(c) && parents[c] == (id, i)
    } by {
        assert(nodes.contains_key(id));
        assert(child_at(nodes, id, i) == child_at(nodes2, id, i));
    }
    assert forall|c: usize| #[trigger] parents.contains_key(c) implies linked(
        nodes2,
        parents,
        depths,
        c,
    ) by {
        assert(linked(nodes, parents, depths, c));
        assert(nodes.contains_key(c));
        assert(nodes.contains_key(parents[c].0));
    }
}

/// The nodes that the first `i + 1` entries allocate are those of the first
/// `i` and those of the next one, and no more than all entries allocate.
pub(crate) proof fn lemma_entries_prefix(entries: Seq<ChildUpdate>, i: int)
    requires
        0 <= i < entries.len(),
    ensures
        ChildUpdate::count_all(entries.take(i + 1)) == ChildUpdate::count_all(entries.take(i))
            + entries[i].count(),
        ChildUpdate::count_all(entries.take(i + 1)) <= ChildUpdate::count_all(entries),
    decreases entries.len() - i,
{
    assert(entries.take(i + 1).drop_last() =~= entries.take(i));
    if i + 1 < entries.len() {
        lemma_entries_prefix(entries, i + 1);
    } else {
        assert(entries.take(i + 1) =~= entries);
    }
}

/// The refusal of the first `i + 1` entries is that of the first `i`, or
/// else the verdict on the next one; and a refusal of some first entries is
/// the refusal of them all.
pub(crate) proof fn lemma_refusal_prefix(tree: Tree, target: usize, entries: Seq<ChildUpdate>, i: int)
    requires
        0 <= i < entries.len(),
    ensures
        first_refusal(tree, target, entries.take(i + 1)) == (match first_refusal(
            tree,
            target,
            entries.take(i),
        ) {
            Some(e) => Some(e),
            None => verdict(tree, target, entries.take(i), entries[i]),
        }),
        first_refusal(tree, target, entries.take(i + 1)) is Some ==> first_refusal(
            tree,
            target,
            entries,
        ) == first_refusal(tree, target, entries.take(i + 1)),
    decreases entries.len() - i,
{
    assert(entries.take(i + 1).drop_last() =~= entries.take(i));
    if i + 1 < entries.len() {
        lemma_refusal_prefix(tree, target, entries, i + 1);
    } else {
        assert(entries.take(i + 1) =~= entries);
    }
}

/// What the first `i + 1` entries keep is what the first `i` keep and what
/// the next one keeps.
pub(crate) proof fn lemma_kept_prefix(entries: Seq<ChildUpdate>, i: int)
    requires
        0 <= i < entries.len(),
    ensures
        kept(entries.take(i + 1)) == (match entries[i] {
            ChildUpdate::KeepIndex(k) => kept(entries.take(i)).insert(k as usize),
            ChildUpdate::NewNode(node) => kept(entries.take(i)),
        }),
        forall|k: u32| #[trigger]
            kept(entries.take(i)).contains(k as usize) <==> kept_before(entries.take(i), k),
{
    let before = entries.take(i);
    let after = entries.take(i + 1);
    assert(after =~= before.push(entries[i]));
    let wanted = match entries[i] {
        ChildUpdate::KeepIndex(k) => kept(before).insert(k as usize),
        ChildUpdate::NewNode(node) => kept(before),
    };
    assert forall|x: usize| kept(after).contains(x) == wanted.contains(x) by {
        if kept(after).contains(x) {
            let k = choose|k: u32| k as usize == x && #[trigger] kept_before(after, k);
            let j = after.index_of(ChildUpdate::KeepIndex(k));
            if j < i {
                assert(before[j] == ChildUpdate::KeepIndex(k));
                assert(kept_before(before, k));
            }
        }
        if wanted.contains(x) {
            if kept(before).contains(x) {
                let k = choose|k: u32| k as usize == x && #[trigger] kept_before(before, k);
                let j = before.index_of(ChildUpdate::KeepIndex(k));
                assert(after[j] == ChildUpdate::KeepIndex(k));
                assert(kept_before(after, k));
            } else {
                let k = entries[i]->KeepIndex_0;
                assert(after[i] == ChildUpdate::KeepIndex(k));
                assert(kept_before(after, k));
            }
        }
    }
    assert(kept(after) =~= wanted);
    assert forall|k: u32| #[trigger]
        kept(before).contains(k as usize) <==> kept_before(before, k) by {
        if kept(before).contains(k as usize) {
            let k2 = choose|k2: u32| k2 as usize == k as usize && #[trigger] kept_before(before, k2);
            assert(k2 == k);
        }
    }
}

/// An update that has made progress and then grows has made progress.
pub(crate) proof fn lemma_progress_grown(
    start: Tree,
    mid: Tree,
    now: Tree,
    target: usize,
    reused: Set<usize>,
    done: Seq<usize>,
    more: Seq<usize>,
)
    requires
        progress(start, mid, target, reused, done),
        grown(mid, now, more),
        rooted(mid, now, more),
    ensures
        progress(start, now, target, reused, done + more),
{
    let ids = done + more;
    lemma_issue_split(start@, start.released(), mid@, mid.released(), done.len(), more.len());
    assert(ids =~= start.upcoming(ids.len()));
    assert forall|x: usize| #[trigger] now@.contains_key(x) implies start@.contains_key(x)
        || ids.contains(x) by {
        if !mid@.contains_key(x) {
            let j = choose|j: int| 0 <= j < more.len() && more[j] == x;
            assert(ids[done.len() + j] == x);
        } else if !start@.contains_key(x) {
            let j = choose|j: int| 0 <= j < done.len() && done[j] == x;
            assert(ids[j] == x);
        }
    }
    assert forall|x: usize| #[trigger] now.parents().contains_key(x) implies start.parents().contains_key(
        x,
    ) || ids.contains(x) by {
        if !mid.parents().contains_key(x) {
            let j = choose|j: int| 0 <= j < more.len() && more[j] == x;
            assert(ids[done.len() + j] == x);
        } else if !start.parents().contains_key(x) {
            let j = choose|j: int| 0 <= j < done.len() && done[j] == x;
            assert(ids[j] == x);
        }
    }
    assert forall|i: int| 0 <= i < ids.len() implies now@.contains_key(#[trigger] ids[i])
        && !start@.contains_key(ids[i]) by {
        if i < done.len() {
            assert(ids[i] == done[i]);
            assert(mid@.contains_key(done[i]));
        } else {
            assert(ids[i] == more[i - done.len()]);
            assert(!mid@.contains_key(more[i - done.len()]));
        }
    }
    assert forall|i: int, j: int| 0 <= i < ids.len() && 0 <= j < ids.len() && i != j implies ids[i]
        != ids[j] by {
        if i < done.len() && j >= done.len() {
            assert(mid@.contains_key(done[i]));
            assert(!mid@.contains_key(more[j - done.len()]));
        } else if j < done.len() && i >= done.len() {
            assert(mid@.contains_key(done[j]));
            assert(!mid@.contains_key(more[i - done.len()]));
        }
    }
    assert(now.released() == spent(start.released(), ids.len()));
    assert forall|x: usize| #[trigger] start@.contains_key(x) implies now.depths()[x]
        == start.depths()[x] by {
        assert(mid@.contains_key(x));
    }
    assert forall|x: usize| #[trigger] start@.contains_key(x) implies now@.contains_key(x) && now@[x]
        == flagged(start@[x], start@[target].kind.children().contains(x), reused.contains(x)) by {
        assert(mid@.contains_key(x));
    }
}

/// Copies that were placed stay placed, with the same listing, in an arena
/// that agrees with the one they were made in.
pub(crate) proof fn lemma_placed_agrees(
    before: Nodes,
    after: Nodes,
    entries: Seq<ChildUpdate>,
    kids: Seq<usize>,
)
    requires
        placed(before, entries, kids),
        agrees(before, after),
        forall|x: usize| #[trigger] before.contains_key(x) ==> children_present(before, before[x].kind),
    ensures
        placed(after, entries, kids),
        listing(after, entries, kids) == listing(before, entries, kids),
    decreases entries.len(),
{
    if entries.len() > 0 {
        lemma_placed_agrees(before, after, entries.drop_last(), kids.drop_last());
        match entries.last() {
            ChildUpdate::KeepIndex(k) => {},
            ChildUpdate::NewNode(node) => {
                lemma_copy_extends(before, after, kids.last(), node);
            },
        }
    }
}

/// Fresh nodes stay fresh in a tree that agrees with the one they were
/// fresh in and holds them unchanged.
pub(crate) proof fn lemma_fresh_agrees<A: Arithmetic>(
    arith: &A,
    a: Tree,
    b: Tree,
    ids: Seq<usize>,
    depth: nat,
)
    requires
        a.structured(),
        fresh(arith, a, ids, depth),
        forall|i: int| 0 <= i < ids.len() ==> a@.contains_key(#[trigger] ids[i]) && b@[ids[i]] == a@[ids[i]],
        agrees(a@, b@),
        forall|x: usize| #[trigger] a@.contains_key(x) ==> b.depths()[x] == a.depths()[x],
    ensures
        fresh(arith, b, ids, depth),
{
    assert forall|i: int| 0 <= i < ids.len() implies {
        let id = #[trigger] ids[i];
        &&& measured(arith, b@, id)
        &&& !b@[id].owned
        &&& !b@[id].reused
        &&& b.depths()[id] >= depth
    } by {
        let id = ids[i];
        assert(a@.contains_key(id));
        lemma_forest_children(a, id);
        lemma_bounds_extend(arith, a@, b@, a@[id].kind, a@[id].aabb);
    }
}

/// The roots `kids` can become the children of the target: each is a child
/// that the update keeps, or a new node without a parent just below the
/// target, and no two are the same. Every child that the update keeps is
/// among them.
pub open spec fn ready(start: Tree, now: Tree, target: usize, reused: Set<usize>, kids: Seq<usize>) -> bool {
    &&& forall|j: int|
        0 <= j < kids.len() ==> {
            let kid = #[trigger] kids[j];
            ||| start@[target].kind.children().contains(kid) && reused.contains(kid)
            ||| {
                &&& !start@.contains_key(kid)
                &&& now@.contains_key(kid)
                &&& !now.parents().contains_key(kid)
                &&& now.depths()[kid] == start.depths()[target] + 1
            }
        }
    &&& forall|j: int, k: int| 0 <= j < k < kids.len() ==> #[trigger] kids[j] != #[trigger] kids[k]
    &&& forall|x: usize| #[trigger] reused.contains(x) ==> kids.contains(x)
}

/// A copy of a list of indices.
pub(crate) fn copy_indices(list: &Vec<usize>) -> (copy: Vec<usize>)
    ensures
        copy@ == list@,
{
    let mut copy: Vec<usize> = Vec::new();
    let mut i: usize = 0;
    while i < list.len()
        invariant
            i <= list.len(),
            copy@ == list@.take(i as int),
        decreases list.len() - i,
    {
        copy.push(list[i]);
        assert(list@.take(i + 1) =~= list@.take(i as int).push(list@[i as int]));
        i += 1;
    }
    assert(list@.take(list.len() as int) =~= list@);
    copy
}

impl Tree {
    /// Looks the target of an update up and flags its children as owned.
    /// Returns their indices.
    pub(crate) fn begin_children_update(&mut self, parent: usize) -> (result: Result<
        Vec<usize>,
        NodeUpdateError,
    >)
        requires
            old(self).wf(),
        ensures
            match result {
                Err(e) => {
                    &&& e == NodeUpdateError::InvalidTarget
                    &&& !old(self)@.contains_key(parent)
                    &&& final(self).same(*old(self))
                },
                Ok(children) => {
                    &&& old(self)@.contains_key(parent)
                    &&& children@ == old(self)@[parent].kind.children()
                    &&& final(self).structured()
                    &&& progress(*old(self), *final(self), parent, Set::empty(), Seq::empty())
                },
            },
    {
        let ghost start = *self;
        let children: Vec<usize> = match slab_get(&self.nodes, parent) {
            None => {
                return Err(NodeUpdateError::InvalidTarget);
            },
            Some(node) => match &node.kind {
                NodeKind::Shape(shape) => Vec::new(),
                NodeKind::Operation { operation, child } => {
                    let mut one: Vec<usize> = Vec::new();
                    one.push(*child);
                    one
                },
                NodeKind::Group(children) => copy_indices(children),
            },
        };
        assert(children@ =~= start@[parent].kind.children());
        let mut i: usize = 0;
        while i < children.len()
            invariant
                i <= children.len(),
                start.wf(),
                start@.contains_key(parent),
                children@ == start@[parent].kind.children(),
                self.released() == start.released(),
                self.parents() == start.parents(),
                self.depths() == start.depths(),
                self.limit() == start.limit(),
                self.counted() == start.counted(),
                self@.dom() == start@.dom(),
                forall|x: usize| #[trigger]
                    start@.contains_key(x) ==> self@[x] == flagged(
                        start@[x],
                        children@.take(i as int).contains(x),
                        false,
                    ),
            decreases children.len() - i,
        {
            let ghost mid = *self;
            let child = children[i];
            proof {
                crate::grow::lemma_forest_children(start, parent);
                assert(start@.contains_key(start@[parent].kind.children()[i as int]));
            }
            match slab_get_mut(&mut self.nodes, child) {
                Some(node) => {
                    node.owned = true;
                },
                None => {},
            }
            proof {
                assert(self@.dom() =~= start@.dom());
                assert forall|x: usize| #[trigger] start@.contains_key(x) implies self@[x] == flagged(
                    start@[x],
                    children@.take(i + 1).contains(x),
                    false,
                ) by {
                    let before = children@.take(i as int);
                    let after = children@.take(i + 1);
                    assert(after =~= before.push(child));
                    if x == child {
                        assert(after[i as int] == child);
                    } else if before.contains(x) {
                        let j = before.index_of(x);
                        assert(after[j] == x);
                    } else if after.contains(x) {
                        let j = after.index_of(x);
                        assert(j < i);
                        assert(before[j] == x);
                    }
                }
            }
            i += 1;
        }
        proof {
            assert(children@.take(i as int) =~= children@);
            lemma_forest_flags(start@, self@, self.parents(), self.depths(), self.limit());
            assert(Seq::<usize>::empty() =~= start.upcoming(0));
            assert(self.released() =~= spent(start.released(), 0));
            assert(Seq::<usize>::empty().no_duplicates());
            assert forall|x: usize| #[trigger] start@.contains_key(x) implies self@.contains_key(x)
                && self@[x] == flagged(
                start@[x],
                start@[parent].kind.children().contains(x),
                Set::<usize>::empty().contains(x),
            ) by {
                assert(self@.dom().contains(x));
            }
            assert forall|x: usize| #[trigger] self@.contains_key(x) implies start@.contains_key(x)
                || Seq::<usize>::empty().contains(x) by {
                assert(self@.dom().contains(x));
            }
        }
        Ok(children)
    }

    /// Resolves one entry of an update: flags a kept child as reused, or
    /// allocates a new subtree. Returns the index of the child.
    pub(crate) fn update_child<A: Arithmetic>(
        &mut self,
        new_indices: &mut Vec<u32>,
        child: ChildUpdate,
        arith: &A,
        Ghost(depth): Ghost<nat>,
    ) -> (result: Result<u32, NodeUpdateError>)
        requires
            old(self).structured(),
            old(self).slots() + child.count() <= 0x1_0000_0000,
        ensures
            final(self).structured(),
            match child {
                ChildUpdate::KeepIndex(k) => {
                    let here = old(self)@.contains_key(k as usize);
                    let node = old(self)@[k as usize];
                    &&& final(new_indices)@ == old(new_indices)@
                    &&& final(self).released() == old(self).released()
                    &&& final(self).parents() == old(self).parents()
                    &&& final(self).depths() == old(self).depths()
                    &&& final(self).limit() == old(self).limit()
                    &&& final(self).counted() == old(self).counted()
                    &&& match result {
                        Ok(index) => {
                            &&& index == k
                            &&& here && node.owned && !node.reused
                            &&& final(self)@ == old(self)@.insert(k as usize, flagged(node, true, true))
                        },
                        Err(e) => {
                            &&& final(self)@ == old(self)@
                            &&& !here ==> e == NodeUpdateError::InvalidKeepIndex(k)
                            &&& here && !node.owned ==> e == NodeUpdateError::UnownedKeepIndex(k)
                            &&& here && node.owned ==> node.reused && e
                                == NodeUpdateError::DuplicateKeepIndex(k)
                        },
                    }
                },
                ChildUpdate::NewNode(node) => {
                    let ids = old(self).upcoming(node.count());
                    &&& result is Ok
                    &&& grown(*old(self), *final(self), ids)
                    &&& rooted(*old(self), *final(self), ids)
                    &&& fresh(arith, *final(self), ids, depth)
                    &&& final(new_indices)@ == old(new_indices)@ + wire(ids)
                    &&& result->Ok_0 as usize == ids.last()
                    &&& copy_of(final(self)@, result->Ok_0 as usize, node)
                    &&& layout(final(self)@, result->Ok_0 as usize, node) == ids
                    &&& !final(self).parents().contains_key(result->Ok_0 as usize)
                    &&& final(self).depths()[result->Ok_0 as usize] == depth
                },
            },
    {
        let ghost before = *self;
        match child {
            ChildUpdate::KeepIndex(idx) => {
                let result = match slab_get_mut(&mut self.nodes, idx as usize) {
                    None => Err(NodeUpdateError::InvalidKeepIndex(idx)),
                    Some(node) => {
                        if !node.owned {
                            Err(NodeUpdateError::UnownedKeepIndex(idx))
                        } else if node.reused {
                            Err(NodeUpdateError::DuplicateKeepIndex(idx))
                        } else {
                            node.reused = true;
                            Ok(idx)
                        }
                    },
                };
                proof {
                    if result is Err {
                        assert(self@ =~= before@);
                    }
                    assert(self@.dom() =~= before@.dom());
                    lemma_forest_flags(before@, self@, self.parents(), self.depths(), self.limit());
                }
                result
            },
            ChildUpdate::NewNode(new_node) => Ok(
                self.materialize(new_indices, new_node, arith, Ghost(depth)),
            ),
        }
    }
}

impl Tree {
    /// Resolves the entries of an update in their order, until one is
    /// refused. Returns the children that they give the target, and as a ghost
    /// the children that were flagged as reused.
    pub(crate) fn resolve_entries<A: Arithmetic>(
        &mut self,
        new_nodes: &mut Vec<u32>,
        given: Vec<ChildUpdate>,
        arith: &A,
        Ghost(start): Ghost<Tree>,
        Ghost(target): Ghost<usize>,
    ) -> (result: (Result<Vec<usize>, NodeUpdateError>, Ghost<Set<usize>>))
        requires
            start.wf(),
            start@.contains_key(target),
            old(self).structured(),
            progress(start, *old(self), target, Set::empty(), Seq::empty()),
            old(new_nodes)@.len() == 0,
            start.slots() + ChildUpdate::count_all(given@) <= 0x1_0000_0000,
        ensures
            final(self).structured(),
            progress(
                start,
                *final(self),
                target,
                result.1@,
                start.upcoming(final(new_nodes)@.len()),
            ),
            final(new_nodes)@ == wire(start.upcoming(final(new_nodes)@.len())),
            final(new_nodes)@.len() <= ChildUpdate::count_all(given@),
            forall|x: usize| #[trigger]
                result.1@.contains(x) ==> start@[target].kind.children().contains(x),
            match result.0 {
                Err(e) => first_refusal(start, target, given@) == Some(e),
                Ok(kids) => {
                    let ids = start.upcoming(ChildUpdate::count_all(given@));
                    &&& first_refusal(start, target, given@) is None
                    &&& final(new_nodes)@.len() == ChildUpdate::count_all(given@)
                    &&& placed(final(self)@, given@, kids@)
                    &&& listing(final(self)@, given@, kids@) == ids
                    &&& fresh(arith, *final(self), ids, start.depths()[target] + 1)
                    &&& ready(start, *final(self), target, result.1@, kids@)
                    &&& result.1@ == kept(given@)
                },
            },
    {
        let ghost wanted = given@;
        let ghost depth = start.depths()[target] + 1;
        let ghost done: Seq<usize> = Seq::empty();
        let ghost reused: Set<usize> = Set::empty();
        let mut entries = given;
        let mut kids: Vec<usize> = Vec::new();
        let mut i: usize = 0;
        proof {
            assert(wanted.take(0) =~= Seq::<ChildUpdate>::empty());
            assert(done =~= start.upcoming(0));
            assert(new_nodes@ =~= wire(done));
            lemma_forest_children(start, target);
        }
        while i < entries.len()
            invariant
                i <= entries.len(),
                wanted == given@,
                entries@.len() == wanted.len(),
                forall|j: int| i <= j < wanted.len() ==> entries@[j] == wanted[j],
                start.wf(),
                start@.contains_key(target),
                children_present(start@, start@[target].kind),
                depth == start.depths()[target] + 1,
                start.slots() + ChildUpdate::count_all(wanted) <= 0x1_0000_0000,
                self.structured(),
                done.len() == ChildUpdate::count_all(wanted.take(i as int)),
                done == start.upcoming(done.len()),
                progress(start, *self, target, reused, done),
                reused == kept(wanted.take(i as int)),
                forall|x: usize| #[trigger]
                    reused.contains(x) ==> start@[target].kind.children().contains(x),
                first_refusal(start, target, wanted.take(i as int)) is None,
                fresh(arith, *self, done, depth),
                new_nodes@ == wire(done),
                kids@.len() == i,
                placed(self@, wanted.take(i as int), kids@),
                listing(self@, wanted.take(i as int), kids@) == done,
                ready(start, *self, target, reused, kids@),
            decreases entries.len() - i,
        {
            let ghost mid = *self;
            let ghost kids_before = kids@;
            let ghost prefix = wanted.take(i as int);
            let mut entry = ChildUpdate::KeepIndex(0);
            std::mem::swap(&mut entries[i], &mut entry);
            proof {
                assert(entry == wanted[i as int]);
                lemma_entries_prefix(wanted, i as int);
                lemma_refusal_prefix(start, target, wanted, i as int);
                lemma_kept_prefix(wanted, i as int);
                assert(mid.slots() <= start.slots() + done.len());
                lemma_forest_integrity(mid);
                assert(wanted.take(i + 1).drop_last() =~= prefix);
                assert(wanted.take(i + 1).last() == entry);
            }
            let ghost asked = entry;
            let resolved = self.update_child(new_nodes, entry, arith, Ghost(depth));
            let kid = match resolved {
                Err(e) => {
                    proof {
                        let k = asked->KeepIndex_0;
                        if mid@.contains_key(k as usize) && !start@.contains_key(k as usize) {
                            let j = choose|j: int| 0 <= j < done.len() && done[j] == k as usize;
                            assert(!mid@[done[j]].owned);
                            if start@[target].kind.children().contains(k as usize) {
                                let c = start@[target].kind.children().index_of(k as usize);
                                assert(start@.contains_key(start@[target].kind.children()[c]));
                            }
                        }
                        if done.contains(k as usize) {
                            let j = done.index_of(k as usize);
                            assert(mid@.contains_key(done[j]));
                        }
                        assert(verdict(start, target, prefix, asked) == Some(e));
                    }
                    return (Err(e), Ghost(reused));
                },
                Ok(kid) => kid,
            };
            kids.push(kid as usize);
            proof {
                assert(kids@.drop_last() =~= kids_before);
                match asked {
                    ChildUpdate::KeepIndex(k) => {
                        let x = k as usize;
                        if !start@.contains_key(x) {
                            let j = choose|j: int| 0 <= j < done.len() && done[j] == x;
                            assert(!mid@[done[j]].owned);
                        }
                        assert(start@[target].kind.children().contains(x));
                        assert(!reused.contains(x));
                        assert(verdict(start, target, prefix, asked) is None);
                        let reused2 = reused.insert(x);
                        assert(self@.dom() =~= mid@.dom());
                        assert(self@.dom().len() == mid@.dom().len());
                        assert forall|y: usize| #[trigger] start@.contains_key(y) implies self@.contains_key(
                            y,
                        ) && self@[y] == flagged(
                            start@[y],
                            start@[target].kind.children().contains(y),
                            reused2.contains(y),
                        ) by {
                            assert(mid@.contains_key(y));
                        }
                        assert(progress(start, *self, target, reused2, done));
                        assert forall|j: int| 0 <= j < done.len() implies self@[#[trigger] done[j]]
                            == mid@[done[j]] by {
                            assert(!start@.contains_key(done[j]));
                        }
                        lemma_fresh_agrees(arith, mid, *self, done, depth);
                        lemma_placed_agrees(mid@, self@, prefix, kids_before);
                        assert(ready(start, *self, target, reused2, kids@)) by {
                            assert forall|j: int| 0 <= j < kids@.len() implies {
                                let kid = #[trigger] kids@[j];
                                ||| start@[target].kind.children().contains(kid) && reused2.contains(
                                    kid,
                                )
                                ||| {
                                    &&& !start@.contains_key(kid)
                                    &&& self@.contains_key(kid)
                                    &&& !self.parents().contains_key(kid)
                                    &&& self.depths()[kid] == start.depths()[target] + 1
                                }
                            } by {
                                if j < i {
                                    assert(kids@[j] == kids_before[j]);
                                }
                            }
                            assert forall|j: int, k2: int| 0 <= j < k2 < kids@.len() implies #[trigger] kids@[j]
                                != #[trigger] kids@[k2] by {
                                assert(kids@[j] == kids_before[j]);
                                if k2 < i {
                                    assert(kids@[k2] == kids_before[k2]);
                                }
                            }
                            assert forall|y: usize| #[trigger] reused2.contains(y) implies kids@.contains(
                                y,
                            ) by {
                                if y == x {
                                    assert(kids@[i as int] == x);
                                } else {
                                    let j = kids_before.index_of(y);
                                    assert(kids@[j] == y);
                                }
                            }
                        }
                        reused = reused2;
                    },
                    ChildUpdate::NewNode(node) => {
                        let more = mid.upcoming(node.count());
                        lemma_progress_grown(start, mid, *self, target, reused, done, more);
                        crate::grow::lemma_fresh_grown(arith, mid, *self, done, more, depth);
                        lemma_placed_agrees(mid@, self@, prefix, kids_before);
                        assert(new_nodes@ =~= wire(done + more));
                        assert(fresh(arith, *self, done + more, depth)) by {
                            assert forall|j: int| 0 <= j < (done + more).len() implies {
                                let id = #[trigger] (done + more)[j];
                                &&& measured(arith, self@, id)
                                &&& !self@[id].owned
                                &&& !self@[id].reused
                                &&& self.depths()[id] >= depth
                            } by {
                                if j < done.len() {
                                    assert((done + more)[j] == done[j]);
                                } else {
                                    assert((done + more)[j] == more[j - done.len()]);
                                }
                            }
                        }
                        assert(ready(start, *self, target, reused, kids@)) by {
                            let last = more[more.len() - 1];
                            assert(more.last() == last);
                            assert(self@.contains_key(last) && !mid@.contains_key(last));
                            assert forall|j: int| 0 <= j < kids@.len() implies {
                                let kid = #[trigger] kids@[j];
                                ||| start@[target].kind.children().contains(kid) && reused.contains(
                                    kid,
                                )
                                ||| {
                                    &&& !start@.contains_key(kid)
                                    &&& self@.contains_key(kid)
                                    &&& !self.parents().contains_key(kid)
                                    &&& self.depths()[kid] == start.depths()[target] + 1
                                }
                            } by {
                                if j < i {
                                    assert(kids@[j] == kids_before[j]);
                                    if !start@.contains_key(kids_before[j]) {
                                        assert(mid@.contains_key(kids_before[j]));
                                    }
                                }
                            }
                            assert forall|j: int, k2: int| 0 <= j < k2 < kids@.len() implies #[trigger] kids@[j]
                                != #[trigger] kids@[k2] by {
                                assert(kids@[j] == kids_before[j]);
                                if k2 < i {
                                    assert(kids@[k2] == kids_before[k2]);
                                } else {
                                    if start@[target].kind.children().contains(kids_before[j]) {
                                        let c = start@[target].kind.children().index_of(
                                            kids_before[j],
                                        );
                                        assert(start@.contains_key(
                                            start@[target].kind.children()[c],
                                        ));
                                    }
                                    assert(mid@.contains_key(kids_before[j]));
                                }
                            }
                            assert forall|y: usize| #[trigger] reused.contains(y) implies kids@.contains(
                                y,
                            ) by {
                                let j = kids_before.index_of(y);
                                assert(kids@[j] == y);
                            }
                        }
                        done = done + more;
                    },
                }
            }
            i += 1;
        }
        proof {
            assert(wanted.take(i as int) =~= wanted);
        }
        (Ok(kids), Ghost(reused))
    }
}

/// The parents after the node `target`, which had the children `before`,
/// has taken the children `kids` in their place.
pub open spec fn regraft(parents: Parents, target: usize, before: Seq<usize>, kids: Seq<usize>) -> Parents {
    Map::new(
        |c: usize| kids.contains(c) || (parents.contains_key(c) && !before.contains(c)),
        |c: usize|
            if kids.contains(c) {
                (target, kids.index_of(c))
            } else {
                parents[c]
            },
    )
}

/// A forest stays one when a node is rewritten in place and its new
/// children are distinct, lie deeper than it, and are children that it had
/// or nodes without a parent.
pub(crate) proof fn lemma_rewrite(
    nodes: Nodes,
    parents: Parents,
    depths: Depths,
    limit: nat,
    target: usize,
    made: Node,
)
    requires
        forest(nodes, parents, depths, limit),
        nodes.contains_key(target),
        forall|j: int|
            0 <= j < made.kind.children().len() ==> {
                let kid = #[trigger] made.kind.children()[j];
                &&& nodes.contains_key(kid)
                &&& depths[kid] > depths[target]
                &&& nodes[target].kind.children().contains(kid) || !parents.contains_key(kid)
            },
        forall|j: int, k: int|
            0 <= j < k < made.kind.children().len() ==> #[trigger] made.kind.children()[j]
                != #[trigger] made.kind.children()[k],
    ensures
        forest(
            nodes.insert(target, made),
            regraft(parents, target, nodes[target].kind.children(), made.kind.children()),
            depths,
            limit,
        ),
{
    let before = nodes[target].kind.children();
    let kids = made.kind.children();
    let nodes2 = nodes.insert(target, made);
    let parents2 = regraft(parents, target, before, kids);
    assert(nodes2.dom() =~= nodes.dom());
    assert forall|id: usize, i: int|
        nodes2.contains_key(id) && 0 <= i < nodes2[id].kind.children().len() implies {
        let c = #[trigger] child_at(nodes2, id, i);
        parents2.contains_key(c) && parents2[c] == (id, i)
    } by {
        let c = child_at(nodes2, id, i);
        if id == target {
            lemma_place(kids, i);
        } else {
            assert(child_at(nodes, id, i) == c);
            assert(parents.contains_key(c) && parents[c] == (id, i));
            if before.contains(c) {
                let j = before.index_of(c);
                assert(child_at(nodes, target, j) == c);
            }
            if kids.contains(c) {
                let j = kids.index_of(c);
                assert(kids[j] == c);
            }
        }
    }
    assert forall|c: usize| #[trigger] parents2.contains_key(c) implies linked(
        nodes2,
        parents2,
        depths,
        c,
    ) by {
        if kids.contains(c) {
            let j = kids.index_of(c);
            assert(kids[j] == c);
            assert(child_at(nodes2, target, j) == c);
        } else {
            assert(linked(nodes, parents, depths, c));
            if parents[c].0 == target {
                assert(child_at(nodes, target, parents[c].1) == c);
                assert(before[parents[c].1] == c);
            }
            assert(child_at(nodes, parents[c].0, parents[c].1) == c);
        }
    }
}

/// The state of a tree whose target has been rewritten and whose abandoned
/// children have not been freed yet.
pub open spec fn written<A: Arithmetic>(
    arith: &A,
    start: Tree,
    now: Tree,
    update: NodeUpdate,
    reused: Set<usize>,
) -> bool {
    let target = update.target as usize;
    let entries = update.content.entries();
    let ids = start.upcoming(update.content.count());
    let kids = now@[target].kind.children();
    &&& now.structured()
    &&& now.released() == spent(start.released(), update.content.count())
    &&& reused == kept(entries)
    &&& forall|x: usize| #[trigger] reused.contains(x) ==> start@[target].kind.children().contains(x)
    &&& now@.contains_key(target)
    &&& !now@[target].owned
    &&& !now@[target].reused
    &&& kind_of(update.content, now@[target].kind, kids)
    &&& measured(arith, now@, target)
    &&& placed(now@, entries, kids)
    &&& listing(now@, entries, kids) == ids
    &&& fresh(arith, now, ids, start.depths()[target] + 1)
    &&& ids.no_duplicates()
    &&& forall|x: usize| #[trigger]
        start@.contains_key(x) && x != target ==> now@.contains_key(x) && now@[x] == flagged(
            start@[x],
            start@[target].kind.children().contains(x),
            reused.contains(x),
        )
    &&& forall|x: usize| #[trigger]
        now@.contains_key(x) ==> start@.contains_key(x) || ids.contains(x)
    &&& forall|i: int|
        0 <= i < ids.len() ==> now@.contains_key(#[trigger] ids[i]) && !start@.contains_key(ids[i])
    &&& forall|x: usize| #[trigger]
        start@.contains_key(x) ==> now.depths()[x] == start.depths()[x]
    &&& forall|x: usize| #[trigger]
        now.parents().contains_key(x) && start@.contains_key(x) && now.parents()[x].0 != target
            ==> start.parents().contains_key(x) && start.parents()[x] == now.parents()[x]
    &&& forall|j: int|
        0 <= j < kids.len() ==> reused.contains(#[trigger] kids[j]) || !start@.contains_key(kids[j])
}

impl Tree {
    /// Resolves the entries of an update and, unless one is refused, writes
    /// the new node over the target.
    pub(crate) fn update_node_inner<A: Arithmetic>(
        &mut self,
        new_nodes: &mut Vec<u32>,
        update: NodeUpdate,
        arith: &A,
        Ghost(start): Ghost<Tree>,
    ) -> (result: (Result<(), NodeUpdateError>, Ghost<Set<usize>>))
        requires
            start.wf(),
            start@.contains_key(update.target as usize),
            old(self).structured(),
            progress(start, *old(self), update.target as usize, Set::empty(), Seq::empty()),
            old(new_nodes)@.len() == 0,
            start.slots() + update.content.count() <= 0x1_0000_0000,
        ensures
            final(new_nodes)@ == wire(start.upcoming(final(new_nodes)@.len())),
            final(new_nodes)@.len() <= update.content.count(),
            match result.0 {
                Err(e) => {
                    &&& first_refusal(start, update.target as usize, update.content.entries())
                        == Some(e)
                    &&& final(self).structured()
                    &&& progress(
                        start,
                        *final(self),
                        update.target as usize,
                        result.1@,
                        start.upcoming(final(new_nodes)@.len()),
                    )
                    &&& forall|x: usize| #[trigger]
                        result.1@.contains(x) ==> start@[update.target as usize].kind.children().contains(
                            x,
                        )
                },
                Ok(done) => {
                    &&& first_refusal(start, update.target as usize, update.content.entries()) is None
                    &&& final(new_nodes)@.len() == update.content.count()
                    &&& written(arith, start, *final(self), update, result.1@)
                },
            },
    {
        let ghost asked = update;
        let target = update.target as usize;
        let (entries, head) = match update.content {
            NodeContent::Shape(shape) => (Vec::new(), Some(NodeKind::Shape(shape))),
            NodeContent::Operation { operation, child } => {
                let mut one: Vec<ChildUpdate> = Vec::new();
                one.push(child);
                (one, Some(NodeKind::Operation { operation, child: 0 }))
            },
            NodeContent::Group { new_children } => match new_children {
                Some(children) => (children, None),
                None => (Vec::new(), None),
            },
        };
        assert(entries@ =~= asked.content.entries());
        let (resolved, Ghost(reused)) = self.resolve_entries(
            new_nodes,
            entries,
            arith,
            Ghost(start),
            Ghost(target),
        );
        let kids = match resolved {
            Err(e) => {
                return (Err(e), Ghost(reused));
            },
            Ok(kids) => kids,
        };
        let ghost mid = *self;
        let ghost ids = start.upcoming(asked.content.count());
        let ghost roots = kids@;
        let kind = match head {
            Some(NodeKind::Operation { operation, child }) => NodeKind::Operation {
                operation,
                child: kids[0],
            },
            Some(kind) => kind,
            None => NodeKind::Group(kids),
        };
        proof {
            assert(kind.children() =~= roots);
            assert(kind_of(asked.content, kind, roots));
            lemma_forest_children(start, target);
            assert forall|j: int| 0 <= j < roots.len() implies {
                let kid = #[trigger] roots[j];
                &&& mid@.contains_key(kid)
                &&& mid.depths()[kid] > mid.depths()[target]
                &&& mid@[target].kind.children().contains(kid) || !mid.parents().contains_key(kid)
            } by {
                let kid = roots[j];
                if start@[target].kind.children().contains(kid) && reused.contains(kid) {
                    let c = start@[target].kind.children().index_of(kid);
                    assert(start@.contains_key(start@[target].kind.children()[c]));
                    assert(child_at(start@, target, c) == kid);
                    assert(linked(start@, start.parents(), start.depths(), kid));
                    assert(mid@.contains_key(kid));
                }
            }
            assert(children_present(mid@, kind)) by {
                assert forall|j: int| 0 <= j < kind.children().len() implies #[trigger] mid@.contains_key(
                    kind.children()[j],
                ) by {
                    assert(mid@.contains_key(roots[j]));
                }
            }
        }
        let made = self.create_new_node(kind, arith);
        match slab_get_mut(&mut self.nodes, target) {
            Some(node) => {
                *node = made;
            },
            None => {},
        }
        proof {
            lemma_rewrite(mid@, mid.parents(), mid.depths(), mid.limit(), target, made);
            self.parents@ = regraft(
                mid.parents(),
                target,
                mid@[target].kind.children(),
                made.kind.children(),
            );
            assert(self@ == mid@.insert(target, made));
            assert(self@.dom() =~= mid@.dom());
            lemma_forest_integrity(mid);
            assert(agrees_except(mid@, self@, target));
            lemma_bounds_rewrite(arith, mid, *self, target, made);
            assert(same_kinds(mid@, self@, ids)) by {
                assert forall|i: int| 0 <= i < ids.len() implies self@.contains_key(#[trigger] ids[i])
                    && self@[ids[i]].kind == mid@[ids[i]].kind by {
                    assert(!start@.contains_key(ids[i]));
                }
            }
            lemma_placed_rewrite(mid@, self@, asked.content.entries(), roots);
            lemma_fresh_rewrite(arith, mid, *self, target, ids, (start.depths()[target] + 1) as nat);
            if roots.contains(0) {
                let j = roots.index_of(0);
                assert(roots[j] == 0);
                if start@[target].kind.children().contains(0) {
                    let c = start@[target].kind.children().index_of(0);
                    assert(child_at(start@, target, c) == 0);
                }
            }
            assert forall|x: usize| #[trigger]
                self.parents().contains_key(x) && start@.contains_key(x) && self.parents()[x].0
                    != target implies start.parents().contains_key(x) && start.parents()[x]
                == self.parents()[x] by {
                if roots.contains(x) {
                    let j = roots.index_of(x);
                    assert(roots[j] == x);
                }
                if !start.parents().contains_key(x) {
                    let j = choose|j: int| 0 <= j < ids.len() && ids[j] == x;
                    assert(!start@.contains_key(ids[j]));
                }
            }
            assert forall|j: int| 0 <= j < roots.len() implies reused.contains(#[trigger] roots[j])
                || !start@.contains_key(roots[j]) by {}
        }
        (Ok(()), Ghost(reused))
    }
}

/// The arena `after` agrees with `before` on every node but `target`.
pub open spec fn agrees_except(before: Nodes, after: Nodes, target: usize) -> bool {
    forall|x: usize| #[trigger]
        before.contains_key(x) && x != target ==> after.contains_key(x) && after[x] == before[x]
}

/// The new node of the target carries the box of its kind in the arena
/// that holds it.
pub(crate) proof fn lemma_bounds_rewrite<A: Arithmetic>(arith: &A, mid: Tree, now: Tree, target: usize, made: Node)
    requires
        mid.structured(),
        mid@.contains_key(target),
        now@ == mid@.insert(target, made),
        children_present(mid@, made.kind),
        kind_bounds(arith, mid@, made.kind, made.aabb),
        forall|j: int|
            0 <= j < made.kind.children().len() ==> mid.depths()[#[trigger] made.kind.children()[j]]
                > mid.depths()[target],
    ensures
        measured(arith, now@, target),
{
    assert forall|j: int| 0 <= j < made.kind.children().len() implies now@[made.kind.children()[j]]
        == mid@[made.kind.children()[j]] by {
        let kid = made.kind.children()[j];
        assert(mid.depths()[kid] > mid.depths()[target]);
    }
    match made.kind {
        NodeKind::Shape(shape) => {},
        NodeKind::Operation { operation, child } => {
            assert(made.kind.children()[0] == child);
        },
        NodeKind::Group(children) => {
            assert forall|j: int| 0 <= j < children@.len() implies now@[children@[j]].aabb
                == mid@[children@[j]].aabb by {
                assert(made.kind.children()[j] == children@[j]);
            }
            assert(crate::bounds::child_boxes(now@, children@) =~= crate::bounds::child_boxes(
                mid@,
                children@,
            ));
        },
    }
}

/// The arena `after` holds each of the given nodes with the kind that it
/// has in `before`.
pub open spec fn same_kinds(before: Nodes, after: Nodes, ids: Seq<usize>) -> bool {
    forall|i: int|
        0 <= i < ids.len() ==> after.contains_key(#[trigger] ids[i]) && after[ids[i]].kind
            == before[ids[i]].kind
}

/// A copy is the same copy in every arena that holds its nodes with their
/// kinds.
pub(crate) proof fn lemma_copy_rewrite(
    before: Nodes,
    after: Nodes,
    id: usize,
    node: crate::protocol::NewNode,
)
    requires
        copy_of(before, id, node),
        same_kinds(before, after, layout(before, id, node)),
    ensures
        copy_of(after, id, node),
        layout(after, id, node) == layout(before, id, node),
    decreases node,
{
    let whole = layout(before, id, node);
    assert(whole[whole.len() - 1] == id);
    match node {
        crate::protocol::NewNode::Shape(shape) => {},
        crate::protocol::NewNode::Operation { operation, child } => {
            let below = layout(before, child_at(before, id, 0), *child);
            assert forall|i: int| 0 <= i < below.len() implies after.contains_key(#[trigger] below[i])
                && after[below[i]].kind == before[below[i]].kind by {
                assert(whole[i] == below[i]);
            }
            lemma_copy_rewrite(before, after, child_at(before, id, 0), *child);
        },
        crate::protocol::NewNode::Group { children } => {
            let below = crate::grow::layouts(before, before[id].kind.children(), children@);
            assert forall|i: int| 0 <= i < below.len() implies after.contains_key(#[trigger] below[i])
                && after[below[i]].kind == before[below[i]].kind by {
                assert(whole[i] == below[i]);
            }
            lemma_copies_rewrite(before, after, before[id].kind.children(), children@);
        },
    }
}

/// The same for several copies.
pub(crate) proof fn lemma_copies_rewrite(
    before: Nodes,
    after: Nodes,
    ids: Seq<usize>,
    children: Seq<crate::protocol::NewNode>,
)
    requires
        crate::grow::copies_of(before, ids, children),
        same_kinds(before, after, crate::grow::layouts(before, ids, children)),
    ensures
        crate::grow::copies_of(after, ids, children),
        crate::grow::layouts(after, ids, children) == crate::grow::layouts(before, ids, children),
    decreases children,
{
    if children.len() > 0 {
        let whole = crate::grow::layouts(before, ids, children);
        let first = crate::grow::layouts(before, ids.drop_last(), children.drop_last());
        let last = layout(before, ids.last(), children.last());
        assert(whole == first + last);
        assert forall|i: int| 0 <= i < first.len() implies after.contains_key(#[trigger] first[i])
            && after[first[i]].kind == before[first[i]].kind by {
            assert(whole[i] == first[i]);
        }
        assert forall|i: int| 0 <= i < last.len() implies after.contains_key(#[trigger] last[i])
            && after[last[i]].kind == before[last[i]].kind by {
            assert(whole[first.len() + i] == last[i]);
        }
        lemma_copies_rewrite(before, after, ids.drop_last(), children.drop_last());
        lemma_copy_rewrite(before, after, ids.last(), children.last());
    }
}

/// Copies that were placed stay placed, with the same listing, in every
/// arena that holds their nodes with their kinds.
pub(crate) proof fn lemma_placed_rewrite(
    before: Nodes,
    after: Nodes,
    entries: Seq<ChildUpdate>,
    kids: Seq<usize>,
)
    requires
        placed(before, entries, kids),
        same_kinds(before, after, listing(before, entries, kids)),
    ensures
        placed(after, entries, kids),
        listing(after, entries, kids) == listing(before, entries, kids),
    decreases entries.len(),
{
    if entries.len() > 0 {
        let whole = listing(before, entries, kids);
        let first = listing(before, entries.drop_last(), kids.drop_last());
        assert forall|i: int| 0 <= i < first.len() implies after.contains_key(#[trigger] first[i])
            && after[first[i]].kind == before[first[i]].kind by {
            assert(whole[i] == first[i]);
        }
        lemma_placed_rewrite(before, after, entries.drop_last(), kids.drop_last());
        match entries.last() {
            ChildUpdate::KeepIndex(k) => {},
            ChildUpdate::NewNode(node) => {
                let last = layout(before, kids.last(), node);
                assert(whole == first + last);
                assert forall|i: int| 0 <= i < last.len() implies after.contains_key(
                    #[trigger] last[i],
                ) && after[last[i]].kind == before[last[i]].kind by {
                    assert(whole[first.len() + i] == last[i]);
                }
                lemma_copy_rewrite(before, after, kids.last(), node);
            },
        }
    }
}

/// Fresh nodes stay fresh when the target, which is none of them and none
/// of their children, is rewritten.
pub(crate) proof fn lemma_fresh_rewrite<A: Arithmetic>(
    arith: &A,
    mid: Tree,
    now: Tree,
    target: usize,
    ids: Seq<usize>,
    depth: nat,
)
    requires
        mid.structured(),
        mid@.contains_key(target),
        fresh(arith, mid, ids, depth),
        forall|i: int| 0 <= i < ids.len() ==> mid@.contains_key(#[trigger] ids[i]),
        agrees_except(mid@, now@, target),
        now.depths() == mid.depths(),
        mid.depths()[target] < depth,
    ensures
        fresh(arith, now, ids, depth),
{
    assert forall|i: int| 0 <= i < ids.len() implies {
        let id = #[trigger] ids[i];
        &&& measured(arith, now@, id)
        &&& !now@[id].owned
        &&& !now@[id].reused
        &&& now.depths()[id] >= depth
    } by {
        let id = ids[i];
        assert(mid@.contains_key(id));
        assert(id != target);
        let kind = mid@[id].kind;
        assert forall|j: int| 0 <= j < kind.children().len() implies now@[kind.children()[j]]
            == mid@[kind.children()[j]] by {
            let c = child_at(mid@, id, j);
            assert(linked(mid@, mid.parents(), mid.depths(), c));
        }
        match kind {
            NodeKind::Shape(shape) => {},
            NodeKind::Operation { operation, child } => {
                assert(kind.children()[0] == child);
            },
            NodeKind::Group(children) => {
                assert forall|j: int| 0 <= j < children@.len() implies now@[children@[j]].aabb
                    == mid@[children@[j]].aabb by {
                    assert(kind.children()[j] == children@[j]);
                }
                assert(crate::bounds::child_boxes(now@, children@) =~= crate::bounds::child_boxes(
                    mid@,
                    children@,
                ));
            },
        }
    }
}

} // verus!
