//! The driver of a walk: a loop over a stack of the nodes that are still to
//! be entered or left, and a stack of the transforms that they are walked
//! under.

use vstd::prelude::*;
use crate::aabb::Aabb;
use crate::arena::slab_get;
use crate::arith::Arithmetic;
use crate::forest::{child_at, linked, Nodes};
use crate::node::NodeKind;
use crate::protocol::Operation;
use crate::scalar::Mat3;
use crate::tree::Tree;
use crate::walk::{
    moved_corners, renders, renders_all, transform_below, world_box, Scene, WalkEvent, WalkTree,
};

verus! {

/// Whether a node is an operation that moves its child: a translation, a
/// rotation or a scale.
pub open spec fn moves(kind: NodeKind) -> bool {
    match kind {
        NodeKind::Operation { operation, child } => operation is Translate || operation is Rotation
            || operation is Scale,
        _ => false,
    }
}

/// The number of nodes at and below `id`.
pub open spec fn size(scene: Scene, id: usize) -> nat
    decreases scene.limit - scene.depths[id], 0nat,
{
    if scene.depths[id] < scene.limit {
        1 + size_all(scene, scene.nodes[id].kind.children(), scene.depths[id])
    } else {
        1
    }
}

/// The number of nodes at and below the given nodes, which lie deeper than
/// `above`.
pub open spec fn size_all(scene: Scene, children: Seq<usize>, above: nat) -> nat
    decreases scene.limit - above - 1, children.len() + 1,
{
    if children.len() == 0 {
        0
    } else if above < scene.depths[children[0]] && scene.depths[children[0]] < scene.limit {
        size(scene, children[0]) + size_all(scene, children.drop_first(), above)
    } else {
        0
    }
}

/// The work that a stack stands for: two steps for each node at or below a
/// node that is to be entered, and one for each node that is to be left.
pub open spec fn weight(scene: Scene, stack: Seq<(usize, bool)>) -> nat
    decreases stack.len(),
{
    if stack.len() == 0 {
        0
    } else {
        weight(scene, stack.drop_last()) + (if stack.last().1 {
            2 * size(scene, stack.last().0)
        } else {
            1
        })
    }
}

/// The number of nodes on the stack that are to be left and move their
/// child: each has a transform of its own on the stack of transforms.
pub open spec fn lifts(nodes: Nodes, stack: Seq<(usize, bool)>) -> nat
    decreases stack.len(),
{
    if stack.len() == 0 {
        0
    } else {
        lifts(nodes, stack.drop_last()) + (if !stack.last().1 && moves(nodes[stack.last().0].kind) {
            1nat
        } else {
            0nat
        })
    }
}

/// Every node on the stack is in the arena, and the ones that are to be
/// left are operations.
pub open spec fn sound(nodes: Nodes, stack: Seq<(usize, bool)>) -> bool {
    forall|i: int|
        0 <= i < stack.len() ==> {
            let entry = #[trigger] stack[i];
            nodes.contains_key(entry.0) && (entry.1 || nodes[entry.0].kind is Operation)
        }
}

/// The given nodes as entries that are to be entered, the first on top.
pub open spec fn entering(children: Seq<usize>) -> Seq<(usize, bool)> {
    Seq::new(children.len(), |i: int| (children[children.len() - 1 - i], true))
}

/// `rest` are the calls that the walk still makes, from the stack down: for
/// a node that is to be entered the calls of its walk under the transform on
/// top, and for a node that is to be left its pop, after which its transform,
/// if it has one, is gone.
pub open spec fn completes<A: Arithmetic>(
    arith: &A,
    viewport: Aabb,
    scene: Scene,
    stack: Seq<(usize, bool)>,
    transforms: Seq<Mat3>,
    rest: Seq<WalkEvent>,
) -> bool
    decreases stack.len(),
{
    if stack.len() == 0 {
        rest.len() == 0
    } else if transforms.len() == 0 {
        false
    } else if stack.last().1 {
        exists|k: int|
            0 <= k <= rest.len() && renders(
                arith,
                viewport,
                scene,
                stack.last().0,
                transforms.last(),
                #[trigger] rest.take(k),
            ) && completes(arith, viewport, scene, stack.drop_last(), transforms, rest.skip(k))
    } else {
        &&& rest.len() > 0
        &&& rest[0] == WalkEvent::Pop(stack.last().0)
        &&& completes(
            arith,
            viewport,
            scene,
            stack.drop_last(),
            if moves(scene.nodes[stack.last().0].kind) {
                transforms.drop_last()
            } else {
                transforms
            },
            rest.drop_first(),
        )
    }
}

/// The calls of the walk of one node, followed by the calls of the walk of
/// some more, are the calls of the walk of them all.
pub(crate) proof fn lemma_renders_first<A: Arithmetic>(
    arith: &A,
    viewport: Aabb,
    scene: Scene,
    children: Seq<usize>,
    transform: Mat3,
    above: nat,
    first: Seq<WalkEvent>,
    more: Seq<WalkEvent>,
)
    requires
        children.len() > 0,
        above < scene.depths[children[0]],
        scene.depths[children[0]] < scene.limit,
        renders(arith, viewport, scene, children[0], transform, first),
        renders_all(arith, viewport, scene, children.drop_first(), transform, above, more),
    ensures
        renders_all(arith, viewport, scene, children, transform, above, first + more),
    decreases children.len(),
{
    let tail = children.drop_first();
    let whole = first + more;
    if tail.len() == 0 {
        assert(children.drop_last() =~= Seq::<usize>::empty());
        assert(whole.take(0) =~= Seq::<WalkEvent>::empty());
        assert(whole.skip(0) =~= first);
        assert(renders_all(
            arith,
            viewport,
            scene,
            children.drop_last(),
            transform,
            above,
            whole.take(0),
        ));
    } else {
        let j = choose|j: int|
            0 <= j <= more.len() && renders_all(
                arith,
                viewport,
                scene,
                tail.drop_last(),
                transform,
                above,
                #[trigger] more.take(j),
            ) && renders(arith, viewport, scene, tail.last(), transform, more.skip(j));
        assert(children.drop_last().drop_first() =~= tail.drop_last());
        lemma_renders_first(
            arith,
            viewport,
            scene,
            children.drop_last(),
            transform,
            above,
            first,
            more.take(j),
        );
        let k = first.len() + j;
        assert(whole.take(k) =~= first + more.take(j));
        assert(whole.skip(k) =~= more.skip(j));
        assert(children.last() == tail.last());
        assert(renders_all(
            arith,
            viewport,
            scene,
            children.drop_last(),
            transform,
            above,
            whole.take(k),
        ));
    }
}

/// What a stack with some nodes on top to be entered still has to call
/// begins with the calls of the walk of those nodes, in their order.
pub(crate) proof fn lemma_completes_children<A: Arithmetic>(
    arith: &A,
    viewport: Aabb,
    scene: Scene,
    stack: Seq<(usize, bool)>,
    children: Seq<usize>,
    transforms: Seq<Mat3>,
    above: nat,
    rest: Seq<WalkEvent>,
) -> (k: int)
    requires
        transforms.len() > 0,
        forall|i: int|
            0 <= i < children.len() ==> above < scene.depths[#[trigger] children[i]]
                && scene.depths[children[i]] < scene.limit,
        completes(arith, viewport, scene, stack + entering(children), transforms, rest),
    ensures
        0 <= k <= rest.len(),
        renders_all(arith, viewport, scene, children, transforms.last(), above, rest.take(k)),
        completes(arith, viewport, scene, stack, transforms, rest.skip(k)),
    decreases children.len(),
{
    let full = stack + entering(children);
    if children.len() == 0 {
        assert(full =~= stack);
        assert(rest.take(0) =~= Seq::<WalkEvent>::empty());
        assert(rest.skip(0) =~= rest);
        0
    } else {
        let tail = children.drop_first();
        assert(full.last() == (children[0], true));
        assert(full.drop_last() =~= stack + entering(tail));
        let k0 = choose|k: int|
            0 <= k <= rest.len() && renders(
                arith,
                viewport,
                scene,
                full.last().0,
                transforms.last(),
                #[trigger] rest.take(k),
            ) && completes(arith, viewport, scene, full.drop_last(), transforms, rest.skip(k));
        assert forall|i: int| 0 <= i < tail.len() implies above < scene.depths[#[trigger] tail[i]]
            && scene.depths[tail[i]] < scene.limit by {
            assert(tail[i] == children[i + 1]);
        }
        let k1 = lemma_completes_children(
            arith,
            viewport,
            scene,
            stack,
            tail,
            transforms,
            above,
            rest.skip(k0),
        );
        lemma_renders_first(
            arith,
            viewport,
            scene,
            children,
            transforms.last(),
            above,
            rest.take(k0),
            rest.skip(k0).take(k1),
        );
        assert(rest.take(k0 + k1) =~= rest.take(k0) + rest.skip(k0).take(k1));
        assert(rest.skip(k0 + k1) =~= rest.skip(k0).skip(k1));
        k0 + k1
    }
}

/// Nodes that are to be entered add two steps to the weight of a stack for
/// each node at or below them, and no transform.
pub(crate) proof fn lemma_weight_children(scene: Scene, stack: Seq<(usize, bool)>, children: Seq<usize>, above: nat)
    requires
        forall|i: int|
            0 <= i < children.len() ==> above < scene.depths[#[trigger] children[i]]
                && scene.depths[children[i]] < scene.limit,
    ensures
        weight(scene, stack + entering(children)) == weight(scene, stack) + 2 * size_all(
            scene,
            children,
            above,
        ),
        lifts(scene.nodes, stack + entering(children)) == lifts(scene.nodes, stack),
        sound(scene.nodes, stack) && (forall|i: int|
            0 <= i < children.len() ==> scene.nodes.contains_key(#[trigger] children[i])) ==> sound(
            scene.nodes,
            stack + entering(children),
        ),
    decreases children.len(),
{
    let full = stack + entering(children);
    if children.len() == 0 {
        assert(full =~= stack);
    } else {
        let tail = children.drop_first();
        assert(full.last() == (children[0], true));
        assert(full.drop_last() =~= stack + entering(tail));
        assert forall|i: int| 0 <= i < tail.len() implies above < scene.depths[#[trigger] tail[i]]
            && scene.depths[tail[i]] < scene.limit by {
            assert(tail[i] == children[i + 1]);
        }
        lemma_weight_children(scene, stack, tail, above);
        assert(above < scene.depths[children[0]]);
        if sound(scene.nodes, stack) && (forall|i: int|
            0 <= i < children.len() ==> scene.nodes.contains_key(#[trigger] children[i])) {
            assert forall|i: int| 0 <= i < full.len() implies {
                let entry = #[trigger] full[i];
                scene.nodes.contains_key(entry.0) && (entry.1 || scene.nodes[entry.0].kind is Operation)
            } by {
                if i >= stack.len() {
                    let c = children.len() - 1 - (i - stack.len());
                    assert(full[i] == (children[c], true));
                } else {
                    assert(full[i] == stack[i]);
                }
            }
        }
    }
}

impl Tree {
    /// Walks the tree from its root and makes the calls of the walk on
    /// `walker`. Returns, as a ghost, the calls that it made, and the same
    /// calls as a list where `keep` is set.
    pub(crate) fn drive<W: WalkTree, A: Arithmetic>(
        &self,
        walker: &mut W,
        viewport: &Aabb,
        arith: &A,
        keep: bool,
    ) -> (made: (Vec<WalkEvent>, Ghost<Seq<WalkEvent>>))
        requires
            self.wf(),
        ensures
            renders(arith, *viewport, self.scene(), 0, Mat3::spec_identity(), made.1@),
            keep ==> made.0@ == made.1@,
    {
        let ghost scene = self.scene();
        let ghost log: Seq<WalkEvent> = Seq::empty();
        let mut events: Vec<WalkEvent> = Vec::new();
        let mut stack: Vec<(usize, bool)> = Vec::new();
        let mut transforms: Vec<Mat3> = Vec::new();
        transforms.push(Mat3::identity());
        stack.push((0, true));
        proof {
            assert(stack@.drop_last() =~= Seq::<(usize, bool)>::empty());
            assert(lifts(scene.nodes, stack@.drop_last()) == 0);
            assert(lifts(scene.nodes, stack@) == 0);
            assert forall|rest: Seq<WalkEvent>| #[trigger]
                completes(arith, *viewport, scene, stack@, transforms@, rest) implies renders(
                arith,
                *viewport,
                scene,
                0,
                Mat3::spec_identity(),
                log + rest,
            ) by {
                let k = choose|k: int|
                    0 <= k <= rest.len() && renders(
                        arith,
                        *viewport,
                        scene,
                        stack@.last().0,
                        transforms@.last(),
                        #[trigger] rest.take(k),
                    ) && completes(
                        arith,
                        *viewport,
                        scene,
                        stack@.drop_last(),
                        transforms@,
                        rest.skip(k),
                    );
                assert(rest.skip(k).len() == 0);
                assert(rest.take(k) =~= rest);
                assert(log + rest =~= rest);
            }
        }
        while stack.len() > 0
            invariant
                self.structured(),
                scene == self.scene(),
                sound(scene.nodes, stack@),
                keep ==> events@ == log,
                transforms@.len() == 1 + lifts(scene.nodes, stack@),
                forall|rest: Seq<WalkEvent>| #[trigger]
                    completes(arith, *viewport, scene, stack@, transforms@, rest) ==> renders(
                        arith,
                        *viewport,
                        scene,
                        0,
                        Mat3::spec_identity(),
                        log + rest,
                    ),
            decreases weight(scene, stack@),
        {
            let ghost before = stack@;
            let ghost emitted = log;
            let ghost lifted = transforms@;
            let (index, ascending) = stack.pop().unwrap();
            let ghost below_stack = stack@;
            proof {
                assert(before.last() == (index, ascending));
                assert(below_stack =~= before.drop_last());
                assert(lifts(scene.nodes, before) == lifts(scene.nodes, below_stack) + (if !ascending
                    && moves(scene.nodes[index].kind) {
                    1nat
                } else {
                    0nat
                }));
                assert(weight(scene, before) == weight(scene, below_stack) + (if ascending {
                    2 * size(scene, index)
                } else {
                    1
                }));
                assert(self@.contains_key(before[before.len() - 1].0));
                assert(sound(scene.nodes, below_stack)) by {
                    assert forall|i: int| 0 <= i < below_stack.len() implies {
                        let entry = #[trigger] below_stack[i];
                        scene.nodes.contains_key(entry.0) && (entry.1
                            || scene.nodes[entry.0].kind is Operation)
                    } by {
                        assert(below_stack[i] == before[i]);
                    }
                }
            }
            let found = slab_get(&self.nodes, index);
            let node = found.unwrap();
            let current = transforms[transforms.len() - 1];
            if ascending {
                let corners = node.aabb.corners();
                let moved = [
                    arith.transform_point(&current, corners[0]),
                    arith.transform_point(&current, corners[1]),
                    arith.transform_point(&current, corners[2]),
                    arith.transform_point(&current, corners[3]),
                ];
                let world = Aabb::around(&moved);
                proof {
                    assert(moved_corners(arith, current, node.aabb, moved@));
                    assert(world_box(arith, current, scene.nodes[index].aabb, world));
                }
                if !viewport.is_intersecting(&world) {
                    proof {
                        assert forall|rest: Seq<WalkEvent>| #[trigger]
                            completes(
                                arith,
                                *viewport,
                                scene,
                                stack@,
                                transforms@,
                                rest,
                            ) implies renders(
                            arith,
                            *viewport,
                            scene,
                            0,
                            Mat3::spec_identity(),
                            log + rest,
                        ) by {
                            assert(rest.take(0) =~= Seq::<WalkEvent>::empty());
                            assert(rest.skip(0) =~= rest);
                            assert(renders(
                                arith,
                                *viewport,
                                scene,
                                index,
                                current,
                                rest.take(0),
                            ));
                            assert(completes(arith, *viewport, scene, before, lifted, rest));
                        }
                    }
                    continue;
                }
                match &node.kind {
                    NodeKind::Shape(shape) => {
                        walker.on_shape(shape);
                        if keep {
                            events.push(WalkEvent::Shape(index));
                        }
                        proof {
                            log = log.push(WalkEvent::Shape(index));
                            assert forall|rest: Seq<WalkEvent>| #[trigger]
                                completes(
                                    arith,
                                    *viewport,
                                    scene,
                                    stack@,
                                    transforms@,
                                    rest,
                                ) implies renders(
                                arith,
                                *viewport,
                                scene,
                                0,
                                Mat3::spec_identity(),
                                log + rest,
                            ) by {
                                let whole = seq![WalkEvent::Shape(index)] + rest;
                                assert(whole.take(1) =~= seq![WalkEvent::Shape(index)]);
                                assert(whole.skip(1) =~= rest);
                                assert(renders(
                                    arith,
                                    *viewport,
                                    scene,
                                    index,
                                    current,
                                    whole.take(1),
                                ));
                                assert(completes(arith, *viewport, scene, before, lifted, whole));
                                assert(log + rest =~= emitted + whole);
                            }
                        }
                    },
                    NodeKind::Operation { operation, child } => {
                        proof {
                            assert(child_at(self@, index, 0) == *child);
                            assert(linked(self@, self.parents(), self.depths(), *child));
                        }
                        walker.push_operation(operation);
                        if keep {
                            events.push(WalkEvent::Push(index));
                        }
                        proof {
                            log = log.push(WalkEvent::Push(index));
                        }
                        stack.push((index, false));
                        stack.push((*child, true));
                        match operation {
                            Operation::Translate { offset } => {
                                let step = arith.translation(*offset);
                                transforms.push(arith.product(&current, &step));
                            },
                            Operation::Rotation { angle } => {
                                let step = arith.rotation(*angle);
                                transforms.push(arith.product(&current, &step));
                            },
                            Operation::Scale { scale } => {
                                let step = arith.scaling(*scale);
                                transforms.push(arith.product(&current, &step));
                            },
                            Operation::Stroke(stroke) => {},
                            Operation::Opacity { opacity } => {},
                            Operation::Blur { radius } => {},
                        }
                        proof {
                            let mid = below_stack.push((index, false));
                            let below = transforms@.last();
                            assert(stack@.drop_last() =~= mid);
                            assert(mid.drop_last() =~= below_stack);
                            assert(transform_below(arith, current, *operation, below));
                            if moves(node.kind) {
                                assert(transforms@.drop_last() =~= lifted);
                            } else {
                                assert(transforms@ =~= lifted);
                            }
                            assert(sound(scene.nodes, stack@)) by {
                                assert forall|i: int| 0 <= i < stack@.len() implies {
                                    let entry = #[trigger] stack@[i];
                                    scene.nodes.contains_key(entry.0) && (entry.1
                                        || scene.nodes[entry.0].kind is Operation)
                                } by {
                                    if i < below_stack.len() {
                                        assert(stack@[i] == below_stack[i]);
                                    }
                                }
                            }
                            let only = seq![*child];
                            assert(only.drop_first() =~= Seq::<usize>::empty());
                            assert(size_all(scene, only.drop_first(), scene.depths[index]) == 0);
                            assert(only[0] == *child);
                            assert(size_all(scene, only, scene.depths[index]) == size(scene, *child));
                            assert(scene.nodes[index].kind.children() =~= only);
                            assert(lifts(scene.nodes, mid) == lifts(scene.nodes, below_stack) + (if moves(
                                node.kind,
                            ) {
                                1nat
                            } else {
                                0nat
                            }));
                            assert(lifts(scene.nodes, stack@) == lifts(scene.nodes, mid));
                            assert(weight(scene, mid) == weight(scene, below_stack) + 1);
                            assert(weight(scene, stack@) == weight(scene, mid) + 2 * size(
                                scene,
                                *child,
                            ));
                            assert forall|rest: Seq<WalkEvent>| #[trigger]
                                completes(
                                    arith,
                                    *viewport,
                                    scene,
                                    stack@,
                                    transforms@,
                                    rest,
                                ) implies renders(
                                arith,
                                *viewport,
                                scene,
                                0,
                                Mat3::spec_identity(),
                                log + rest,
                            ) by {
                                let k = choose|k: int|
                                    0 <= k <= rest.len() && renders(
                                        arith,
                                        *viewport,
                                        scene,
                                        stack@.last().0,
                                        transforms@.last(),
                                        #[trigger] rest.take(k),
                                    ) && completes(
                                        arith,
                                        *viewport,
                                        scene,
                                        stack@.drop_last(),
                                        transforms@,
                                        rest.skip(k),
                                    );
                                let inner = rest.take(k);
                                let after = rest.skip(k);
                                assert(completes(arith, *viewport, scene, mid, transforms@, after));
                                let tail = after.drop_first();
                                assert(completes(arith, *viewport, scene, below_stack, lifted, tail));
                                let mine = seq![WalkEvent::Push(index)] + inner + seq![
                                    WalkEvent::Pop(index),
                                ];
                                let whole = mine + tail;
                                assert(mine.subrange(1, mine.len() - 1) =~= inner);
                                assert(renders(arith, *viewport, scene, index, current, mine));
                                assert(whole.take(k + 2) =~= mine);
                                assert(whole.skip(k + 2) =~= tail);
                                assert(completes(arith, *viewport, scene, before, lifted, whole));
                                assert(log + rest =~= emitted + whole);
                            }
                        }
                    },
                    NodeKind::Group(children) => {
                        let mut j: usize = children.len();
                        proof {
                            assert(children@.skip(j as int) =~= Seq::<usize>::empty());
                            assert(stack@ =~= below_stack + entering(children@.skip(j as int)));
                        }
                        while j > 0
                            invariant
                                j <= children.len(),
                                stack@ == below_stack + entering(children@.skip(j as int)),
                            decreases j,
                        {
                            j -= 1;
                            stack.push((children[j], true));
                            proof {
                                assert(stack@ =~= below_stack + entering(children@.skip(j as int)));
                            }
                        }
                        proof {
                            assert(children@.skip(0) =~= children@);
                            let above = scene.depths[index];
                            assert forall|i: int| 0 <= i < children@.len() implies above
                                < scene.depths[#[trigger] children@[i]] && scene.depths[children@[i]]
                                < scene.limit && scene.nodes.contains_key(children@[i]) by {
                                assert(child_at(self@, index, i) == children@[i]);
                                assert(linked(self@, self.parents(), self.depths(), children@[i]));
                            }
                            lemma_weight_children(scene, below_stack, children@, above);
                            assert(scene.nodes[index].kind.children() == children@);
                            assert forall|rest: Seq<WalkEvent>| #[trigger]
                                completes(
                                    arith,
                                    *viewport,
                                    scene,
                                    stack@,
                                    transforms@,
                                    rest,
                                ) implies renders(
                                arith,
                                *viewport,
                                scene,
                                0,
                                Mat3::spec_identity(),
                                log + rest,
                            ) by {
                                let k = lemma_completes_children(
                                    arith,
                                    *viewport,
                                    scene,
                                    below_stack,
                                    children@,
                                    transforms@,
                                    above,
                                    rest,
                                );
                                assert(renders(
                                    arith,
                                    *viewport,
                                    scene,
                                    index,
                                    current,
                                    rest.take(k),
                                ));
                                assert(completes(arith, *viewport, scene, before, lifted, rest));
                            }
                        }
                    },
                }
            } else {
                match &node.kind {
                    NodeKind::Operation { operation, child } => {
                        walker.pop_operation(operation);
                        if keep {
                            events.push(WalkEvent::Pop(index));
                        }
                        proof {
                            log = log.push(WalkEvent::Pop(index));
                        }
                        match operation {
                            Operation::Translate { offset } => {
                                transforms.pop();
                            },
                            Operation::Rotation { angle } => {
                                transforms.pop();
                            },
                            Operation::Scale { scale } => {
                                transforms.pop();
                            },
                            Operation::Stroke(stroke) => {},
                            Operation::Opacity { opacity } => {},
                            Operation::Blur { radius } => {},
                        }
                        proof {
                            if moves(node.kind) {
                                assert(transforms@ =~= lifted.drop_last());
                            }
                            assert forall|rest: Seq<WalkEvent>| #[trigger]
                                completes(
                                    arith,
                                    *viewport,
                                    scene,
                                    stack@,
                                    transforms@,
                                    rest,
                                ) implies renders(
                                arith,
                                *viewport,
                                scene,
                                0,
                                Mat3::spec_identity(),
                                log + rest,
                            ) by {
                                let whole = seq![WalkEvent::Pop(index)] + rest;
                                assert(whole.drop_first() =~= rest);
                                assert(completes(arith, *viewport, scene, before, lifted, whole));
                                assert(log + rest =~= emitted + whole);
                            }
                        }
                    },
                    NodeKind::Shape(shape) => {},
                    NodeKind::Group(children) => {},
                }
            }
        }
        proof {
            assert(completes(
                arith,
                *viewport,
                scene,
                stack@,
                transforms@,
                Seq::<WalkEvent>::empty(),
            ));
            assert(log + Seq::<WalkEvent>::empty() =~= log);
        }
        (events, Ghost(log))
    }
}

} // verus!
