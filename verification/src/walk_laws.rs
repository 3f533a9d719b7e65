//! What holds of every walk: pushes and pops nest, a group's children are
//! walked in their order, and a node that the viewport cannot see gets no
//! call.

use vstd::prelude::*;
use crate::aabb::Aabb;
use crate::arith::Arithmetic;
use crate::forest::{child_at, lemma_within_parent, linked};
use crate::node::NodeKind;
use crate::prune::{lemma_disjoint, lemma_siblings};
use crate::scalar::Mat3;
use crate::tree::Tree;
use crate::walk::{renders, renders_all, transform_below, world_box, Scene, WalkEvent};

verus! {

/// The operations that are open after the given calls, where `open` were
/// open before them; nothing where a pop does not match the push that was
/// made last.
pub open spec fn run(events: Seq<WalkEvent>, open: Seq<usize>) -> Option<Seq<usize>>
    decreases events.len(),
{
    if events.len() == 0 {
        Some(open)
    } else {
        match events[0] {
            WalkEvent::Shape(id) => run(events.drop_first(), open),
            WalkEvent::Push(id) => run(events.drop_first(), open.push(id)),
            WalkEvent::Pop(id) => if open.len() > 0 && open.last() == id {
                run(events.drop_first(), open.drop_last())
            } else {
                None
            },
        }
    }
}

/// The pushes and pops of the calls nest: each pop is made for the node of
/// the push that is open then, and no push stays open.
pub open spec fn balanced(events: Seq<WalkEvent>) -> bool {
    run(events, Seq::empty()) == Some(Seq::<usize>::empty())
}

/// Running two lists of calls one after the other is running the second
/// from where the first ends.
pub proof fn lemma_run_concat(first: Seq<WalkEvent>, second: Seq<WalkEvent>, open: Seq<usize>)
    ensures
        run(first + second, open) == (match run(first, open) {
            Some(then) => run(second, then),
            None => None,
        }),
    decreases first.len(),
{
    if first.len() == 0 {
        assert(first + second =~= second);
    } else {
        let whole = first + second;
        assert(whole.drop_first() =~= first.drop_first() + second);
        assert(whole[0] == first[0]);
        match first[0] {
            WalkEvent::Shape(id) => {
                lemma_run_concat(first.drop_first(), second, open);
            },
            WalkEvent::Push(id) => {
                lemma_run_concat(first.drop_first(), second, open.push(id));
            },
            WalkEvent::Pop(id) => {
                if open.len() > 0 && open.last() == id {
                    lemma_run_concat(first.drop_first(), second, open.drop_last());
                }
            },
        }
    }
}

/// The calls of a walk of a node leave open what was open.
pub proof fn lemma_renders_neutral<A: Arithmetic>(
    arith: &A,
    viewport: Aabb,
    scene: Scene,
    id: usize,
    transform: Mat3,
    events: Seq<WalkEvent>,
    open: Seq<usize>,
)
    requires
        renders(arith, viewport, scene, id, transform, events),
    ensures
        run(events, open) == Some(open),
    decreases scene.limit - scene.depths[id], 0nat,
{
    let world = choose|world: Aabb| #[trigger]
        world_box(arith, transform, scene.nodes[id].aabb, world) && if !viewport.spec_is_intersecting(
            world,
        ) {
            events.len() == 0
        } else {
            match scene.nodes[id].kind {
                NodeKind::Shape(shape) => events == seq![WalkEvent::Shape(id)],
                NodeKind::Operation { operation, child } => {
                    &&& events.len() >= 2
                    &&& events[0] == WalkEvent::Push(id)
                    &&& events[events.len() - 1] == WalkEvent::Pop(id)
                    &&& scene.depths[id] < scene.depths[child]
                    &&& scene.depths[child] < scene.limit
                    &&& exists|below: Mat3| #[trigger]
                        transform_below(arith, transform, operation, below) && renders(
                            arith,
                            viewport,
                            scene,
                            child,
                            below,
                            events.subrange(1, events.len() - 1),
                        )
                },
                NodeKind::Group(children) => renders_all(
                    arith,
                    viewport,
                    scene,
                    children@,
                    transform,
                    scene.depths[id],
                    events,
                ),
            }
        };
    if viewport.spec_is_intersecting(world) {
        match scene.nodes[id].kind {
            NodeKind::Shape(shape) => {
                assert(events.drop_first() =~= Seq::<WalkEvent>::empty());
                assert(run(events.drop_first(), open) == Some(open));
            },
            NodeKind::Operation { operation, child } => {
                let inner = events.subrange(1, events.len() - 1);
                let below = choose|below: Mat3| #[trigger]
                    transform_below(arith, transform, operation, below) && renders(
                        arith,
                        viewport,
                        scene,
                        child,
                        below,
                        inner,
                    );
                lemma_renders_neutral(arith, viewport, scene, child, below, inner, open.push(id));
                let last = seq![WalkEvent::Pop(id)];
                assert(events.drop_first() =~= inner + last);
                lemma_run_concat(inner, last, open.push(id));
                assert(last.drop_first() =~= Seq::<WalkEvent>::empty());
                assert(open.push(id).drop_last() =~= open);
                assert(run(last.drop_first(), open) == Some(open));
                assert(run(last, open.push(id)) == Some(open));
            },
            NodeKind::Group(children) => {
                lemma_renders_all_neutral(
                    arith,
                    viewport,
                    scene,
                    children@,
                    transform,
                    scene.depths[id],
                    events,
                    open,
                );
            },
        }
    }
}

/// The calls of a walk of several nodes leave open what was open.
pub proof fn lemma_renders_all_neutral<A: Arithmetic>(
    arith: &A,
    viewport: Aabb,
    scene: Scene,
    children: Seq<usize>,
    transform: Mat3,
    above: nat,
    events: Seq<WalkEvent>,
    open: Seq<usize>,
)
    requires
        renders_all(arith, viewport, scene, children, transform, above, events),
    ensures
        run(events, open) == Some(open),
    decreases scene.limit - above - 1, children.len() + 1,
{
    if children.len() > 0 {
        let k = choose|k: int|
            0 <= k <= events.len() && renders_all(
                arith,
                viewport,
                scene,
                children.drop_last(),
                transform,
                above,
                #[trigger] events.take(k),
            ) && renders(arith, viewport, scene, children.last(), transform, events.skip(k));
        lemma_renders_all_neutral(
            arith,
            viewport,
            scene,
            children.drop_last(),
            transform,
            above,
            events.take(k),
            open,
        );
        lemma_renders_neutral(arith, viewport, scene, children.last(), transform, events.skip(k), open);
        assert(events =~= events.take(k) + events.skip(k));
        lemma_run_concat(events.take(k), events.skip(k), open);
    }
}

/// Push/pop balance: the calls of a walk of a tree nest. Each pop is made
/// for the node of the push that is open then, so with the same operation,
/// and no push stays open.
pub proof fn lemma_walk_balanced<A: Arithmetic>(
    arith: &A,
    viewport: Aabb,
    tree: Tree,
    id: usize,
    transform: Mat3,
    events: Seq<WalkEvent>,
)
    requires
        renders(arith, viewport, tree.scene(), id, transform, events),
    ensures
        balanced(events),
{
    lemma_renders_neutral(arith, viewport, tree.scene(), id, transform, events, Seq::empty());
}

/// Culling: a node whose box, under the transform that the walk reaches it
/// with, does not meet the viewport whatever the arithmetic gave for it, gets
/// no call, and neither does a node below it: the calls of the walk of the
/// node are none.
pub proof fn lemma_culled_renders_nothing<A: Arithmetic>(
    arith: &A,
    viewport: Aabb,
    tree: Tree,
    id: usize,
    transform: Mat3,
    events: Seq<WalkEvent>,
)
    requires
        renders(arith, viewport, tree.scene(), id, transform, events),
        forall|world: Aabb| #[trigger]
            world_box(arith, transform, tree@[id].aabb, world) ==> !viewport.spec_is_intersecting(
                world,
            ),
    ensures
        events.len() == 0,
{
}

/// Every call of the walk of a node is made for the node or for one below
/// it.
pub proof fn lemma_events_within<A: Arithmetic>(
    arith: &A,
    viewport: Aabb,
    tree: Tree,
    id: usize,
    transform: Mat3,
    events: Seq<WalkEvent>,
    a: int,
)
    requires
        tree.structured(),
        tree@.contains_key(id),
        renders(arith, viewport, tree.scene(), id, transform, events),
        0 <= a < events.len(),
    ensures
        tree.is_within(id, events[a].node()),
    decreases tree.limit() - tree.depths()[id], 0nat,
{
    let scene = tree.scene();
    let world = choose|world: Aabb| #[trigger]
        world_box(arith, transform, scene.nodes[id].aabb, world) && if !viewport.spec_is_intersecting(
            world,
        ) {
            events.len() == 0
        } else {
            match scene.nodes[id].kind {
                NodeKind::Shape(shape) => events == seq![WalkEvent::Shape(id)],
                NodeKind::Operation { operation, child } => {
                    &&& events.len() >= 2
                    &&& events[0] == WalkEvent::Push(id)
                    &&& events[events.len() - 1] == WalkEvent::Pop(id)
                    &&& scene.depths[id] < scene.depths[child]
                    &&& scene.depths[child] < scene.limit
                    &&& exists|below: Mat3| #[trigger]
                        transform_below(arith, transform, operation, below) && renders(
                            arith,
                            viewport,
                            scene,
                            child,
                            below,
                            events.subrange(1, events.len() - 1),
                        )
                },
                NodeKind::Group(children) => renders_all(
                    arith,
                    viewport,
                    scene,
                    children@,
                    transform,
                    scene.depths[id],
                    events,
                ),
            }
        };
    assert(tree.is_within(id, id));
    match scene.nodes[id].kind {
        NodeKind::Shape(shape) => {},
        NodeKind::Operation { operation, child } => {
            if 0 < a < events.len() - 1 {
                let inner = events.subrange(1, events.len() - 1);
                let below = choose|below: Mat3| #[trigger]
                    transform_below(arith, transform, operation, below) && renders(
                        arith,
                        viewport,
                        scene,
                        child,
                        below,
                        inner,
                    );
                assert(child_at(tree@, id, 0) == child);
                assert(linked(tree@, tree.parents(), tree.depths(), child));
                lemma_events_within(arith, viewport, tree, child, below, inner, a - 1);
                assert(inner[a - 1] == events[a]);
                lemma_within_parent(tree.parents(), tree.depths(), id, child, events[a].node());
            }
        },
        NodeKind::Group(children) => {
            let m = lemma_events_within_one(
                arith,
                viewport,
                tree,
                id,
                children@,
                transform,
                events,
                a,
            );
            assert(child_at(tree@, id, m) == children@[m]);
            assert(linked(tree@, tree.parents(), tree.depths(), children@[m]));
            lemma_within_parent(tree.parents(), tree.depths(), id, children@[m], events[a].node());
        },
    }
}

/// Every call of the walk of the first children of a node is made for one
/// of them or for a node below it.
pub proof fn lemma_events_within_one<A: Arithmetic>(
    arith: &A,
    viewport: Aabb,
    tree: Tree,
    id: usize,
    children: Seq<usize>,
    transform: Mat3,
    events: Seq<WalkEvent>,
    a: int,
) -> (m: int)
    requires
        tree.structured(),
        tree@.contains_key(id),
        children.len() <= tree@[id].kind.children().len(),
        forall|i: int| 0 <= i < children.len() ==> children[i] == child_at(tree@, id, i),
        renders_all(arith, viewport, tree.scene(), children, transform, tree.depths()[id], events),
        0 <= a < events.len(),
    ensures
        0 <= m < children.len(),
        tree.is_within(children[m], events[a].node()),
    decreases tree.limit() - tree.depths()[id] - 1, children.len() + 1,
{
    let scene = tree.scene();
    let k = choose|k: int|
        0 <= k <= events.len() && renders_all(
            arith,
            viewport,
            scene,
            children.drop_last(),
            transform,
            scene.depths[id],
            #[trigger] events.take(k),
        ) && renders(arith, viewport, scene, children.last(), transform, events.skip(k));
    if a < k {
        let m = lemma_events_within_one(
            arith,
            viewport,
            tree,
            id,
            children.drop_last(),
            transform,
            events.take(k),
            a,
        );
        m
    } else {
        let last = children.len() - 1;
        assert(children[last] == child_at(tree@, id, last));
        assert(linked(tree@, tree.parents(), tree.depths(), children[last]));
        lemma_events_within(
            arith,
            viewport,
            tree,
            children.last(),
            transform,
            events.skip(k),
            a - k,
        );
        last
    }
}

/// In the walk of the first children of a node, the calls for an earlier
/// child and what lies below it come before those for a later one.
pub proof fn lemma_children_order<A: Arithmetic>(
    arith: &A,
    viewport: Aabb,
    tree: Tree,
    id: usize,
    children: Seq<usize>,
    transform: Mat3,
    events: Seq<WalkEvent>,
    i: int,
    j: int,
    a: int,
    b: int,
)
    requires
        tree.structured(),
        tree@.contains_key(id),
        children.len() <= tree@[id].kind.children().len(),
        forall|m: int| 0 <= m < children.len() ==> children[m] == child_at(tree@, id, m),
        renders_all(arith, viewport, tree.scene(), children, transform, tree.depths()[id], events),
        0 <= i < j < children.len(),
        0 <= a < events.len(),
        0 <= b < events.len(),
        tree.is_within(children[i], events[a].node()),
        tree.is_within(children[j], events[b].node()),
    ensures
        a < b,
    decreases children.len(),
{
    let scene = tree.scene();
    let parents = tree.parents();
    let depths = tree.depths();
    let k = choose|k: int|
        0 <= k <= events.len() && renders_all(
            arith,
            viewport,
            scene,
            children.drop_last(),
            transform,
            scene.depths[id],
            #[trigger] events.take(k),
        ) && renders(arith, viewport, scene, children.last(), transform, events.skip(k));
    let last = children.len() - 1;
    assert(children[last] == child_at(tree@, id, last));
    assert(linked(tree@, parents, depths, children[last]));
    if a >= k {
        // the call `a` is made within the last child, and within child `i`
        lemma_events_within(arith, viewport, tree, children.last(), transform, events.skip(k), a - k);
        lemma_siblings(tree@, parents, depths, tree.limit(), id, i, last);
        lemma_siblings(tree@, parents, depths, tree.limit(), id, last, i);
        lemma_disjoint(parents, depths, children[i], children[last], events[a].node());
    } else if b < k {
        let m = lemma_events_within_one(
            arith,
            viewport,
            tree,
            id,
            children.drop_last(),
            transform,
            events.take(k),
            b,
        );
        if j == last {
            lemma_siblings(tree@, parents, depths, tree.limit(), id, m, last);
            lemma_siblings(tree@, parents, depths, tree.limit(), id, last, m);
            lemma_disjoint(parents, depths, children[m], children[last], events[b].node());
        } else {
            lemma_children_order(
                arith,
                viewport,
                tree,
                id,
                children.drop_last(),
                transform,
                events.take(k),
                i,
                j,
                a,
                b,
            );
        }
    }
}

/// Group visit order: in the walk of a group, the calls for a child and for
/// what lies below it come before the calls for every later child and for what
/// lies below that one.
pub proof fn lemma_group_order<A: Arithmetic>(
    arith: &A,
    viewport: Aabb,
    tree: Tree,
    id: usize,
    transform: Mat3,
    events: Seq<WalkEvent>,
    i: int,
    j: int,
    a: int,
    b: int,
)
    requires
        tree.structured(),
        tree@.contains_key(id),
        tree@[id].kind is Group,
        renders(arith, viewport, tree.scene(), id, transform, events),
        0 <= i < j < tree@[id].kind.children().len(),
        0 <= a < events.len(),
        0 <= b < events.len(),
        tree.is_within(tree@[id].kind.children()[i], events[a].node()),
        tree.is_within(tree@[id].kind.children()[j], events[b].node()),
    ensures
        a < b,
{
    let scene = tree.scene();
    let children = tree@[id].kind.children();
    let world = choose|world: Aabb| #[trigger]
        world_box(arith, transform, scene.nodes[id].aabb, world) && if !viewport.spec_is_intersecting(
            world,
        ) {
            events.len() == 0
        } else {
            match scene.nodes[id].kind {
                NodeKind::Shape(shape) => events == seq![WalkEvent::Shape(id)],
                NodeKind::Operation { operation, child } => {
                    &&& events.len() >= 2
                    &&& events[0] == WalkEvent::Push(id)
                    &&& events[events.len() - 1] == WalkEvent::Pop(id)
                    &&& scene.depths[id] < scene.depths[child]
                    &&& scene.depths[child] < scene.limit
                    &&& exists|below: Mat3| #[trigger]
                        transform_below(arith, transform, operation, below) && renders(
                            arith,
                            viewport,
                            scene,
                            child,
                            below,
                            events.subrange(1, events.len() - 1),
                        )
                },
                NodeKind::Group(children) => renders_all(
                    arith,
                    viewport,
                    scene,
                    children@,
                    transform,
                    scene.depths[id],
                    events,
                ),
            }
        };
    lemma_children_order(arith, viewport, tree, id, children, transform, events, i, j, a, b);
}

} // verus!
