//! Walking a tree to draw it: each node that the viewport can see is visited
//! depth first, a group's children in their order, and an operation is
//! pushed before its child and popped after it.

use vstd::prelude::*;
use crate::aabb::Aabb;
use crate::arith::Arithmetic;
use crate::forest::{Depths, Nodes};
use crate::node::NodeKind;
use crate::protocol::{Operation, Shape};
use crate::scalar::{Mat3, Vec2};
use crate::tree::Tree;

verus! {

/// What a walk hands to: the renderer.
pub trait WalkTree {
    /// Draws a leaf.
    fn on_shape(&mut self, shape: &Shape);

    /// Enters an operation: what follows, up to the matching pop, is drawn
    /// under it.
    fn push_operation(&mut self, operation: &Operation);

    /// Leaves the operation that was pushed last.
    fn pop_operation(&mut self, operation: &Operation);

    /// Shows the box of a node. A walk does not call it.
    fn on_aabb(&mut self, aabb: &Aabb);
}

/// One call that a walk makes on the renderer, with the index of the node
/// that it is made for.
#[derive(Clone, Copy, Debug, PartialEq, Eq, Structural)]
pub enum WalkEvent {
    /// `on_shape` with the shape of the node.
    Shape(usize),
    /// `push_operation` with the operation of the node.
    Push(usize),
    /// `pop_operation` with the operation of the node.
    Pop(usize),
}

impl WalkEvent {
    /// The node that the call is made for.
    pub open spec fn node(self) -> usize {
        match self {
            WalkEvent::Shape(id) => id,
            WalkEvent::Push(id) => id,
            WalkEvent::Pop(id) => id,
        }
    }
}

/// `moved` holds the four corners of `aabb`, each as `arith` moved it by
/// `transform`.
pub open spec fn moved_corners<A: Arithmetic>(
    arith: &A,
    transform: Mat3,
    aabb: Aabb,
    moved: Seq<Vec2>,
) -> bool {
    &&& moved.len() == 4
    &&& forall|i: int|
        0 <= i < 4 ==> call_ensures(
            A::transform_point,
            (arith, &transform, aabb.spec_corners()[i]),
            #[trigger] moved[i],
        )
}

/// `world` is the box of a node in the space of the viewport: the box
/// around the four corners of its own box under `transform`.
pub open spec fn world_box<A: Arithmetic>(arith: &A, transform: Mat3, aabb: Aabb, world: Aabb) -> bool {
    exists|moved: Seq<Vec2>| #[trigger]
        moved_corners(arith, transform, aabb, moved) && world == Aabb::spec_around(moved)
}

/// `below` is the transform under which the child of `operation` is walked:
/// `transform · step` where the operation is a translation, a rotation or a
/// scale and `step` is its matrix, as `arith` gave them, and `transform`
/// itself under the other operations.
pub open spec fn transform_below<A: Arithmetic>(
    arith: &A,
    transform: Mat3,
    operation: Operation,
    below: Mat3,
) -> bool {
    match operation {
        Operation::Translate { offset } => exists|step: Mat3| #[trigger]
            call_ensures(A::translation, (arith, offset), step) && call_ensures(
                A::product,
                (arith, &transform, &step),
                below,
            ),
        Operation::Rotation { angle } => exists|step: Mat3| #[trigger]
            call_ensures(A::rotation, (arith, angle), step) && call_ensures(
                A::product,
                (arith, &transform, &step),
                below,
            ),
        Operation::Scale { scale } => exists|step: Mat3| #[trigger]
            call_ensures(A::scaling, (arith, scale), step) && call_ensures(
                A::product,
                (arith, &transform, &step),
                below,
            ),
        Operation::Stroke(stroke) => below == transform,
        Operation::Opacity { opacity } => below == transform,
        Operation::Blur { radius } => below == transform,
    }
}

/// What a walk needs of the arena, read off the tree.
pub struct Scene {
    pub nodes: Nodes,
    pub depths: Depths,
    pub limit: nat,
}

/// `events` are the calls of a walk of the node `id` under `transform`.
///
/// The node's box is taken to the space of the viewport. Where it does not
/// meet the viewport there is no call, for the node or below it. Else a
/// shape gives one call; an operation gives its push, the calls of its child
/// under the transform below it, and its pop; and a group gives the calls of
/// its children, one child after the other in their order.
pub open spec fn renders<A: Arithmetic>(
    arith: &A,
    viewport: Aabb,
    scene: Scene,
    id: usize,
    transform: Mat3,
    events: Seq<WalkEvent>,
) -> bool
    decreases scene.limit - scene.depths[id], 0nat,
{
    &&& scene.depths[id] < scene.limit
    &&& exists|world: Aabb| #[trigger]
        world_box(arith, transform, scene.nodes[id].aabb, world) && if !viewport.spec_is_intersecting(
            world,
        ) {
            events.len() == 0
        } else {
            match scene.nodes[id].kind {
                NodeKind::Shape(shape) => events == seq![WalkEvent::Shape(id)],
                NodeKind::Operation { operation, child } => {
                    &&& events.len() >= 2
                    &&& events[0] == WalkEvent::Push(id)
                    &&& events[events.len() - 1] == WalkEvent::Pop(id)
                    &&& scene.depths[id] < scene.depths[child]
                    &&& scene.depths[child] < scene.limit
                    &&& exists|below: Mat3| #[trigger]
                        transform_below(arith, transform, operation, below) && renders(
                            arith,
                            viewport,
                            scene,
                            child,
                            below,
                            events.subrange(1, events.len() - 1),
                        )
                },
                NodeKind::Group(children) => renders_all(
                    arith,
                    viewport,
                    scene,
                    children@,
                    transform,
                    scene.depths[id],
                    events,
                ),
            }
        }
}

/// `events` are the calls of a walk of the given nodes, one after the
/// other, all under `transform`. The nodes lie deeper than `above`.
pub open spec fn renders_all<A: Arithmetic>(
    arith: &A,
    viewport: Aabb,
    scene: Scene,
    children: Seq<usize>,
    transform: Mat3,
    above: nat,
    events: Seq<WalkEvent>,
) -> bool
    decreases scene.limit - above - 1, children.len() + 1,
{
    if children.len() == 0 {
        events.len() == 0
    } else {
        &&& above < scene.depths[children.last()]
        &&& scene.depths[children.last()] < scene.limit
        &&& exists|k: int|
            0 <= k <= events.len() && renders_all(
                arith,
                viewport,
                scene,
                children.drop_last(),
                transform,
                above,
                #[trigger] events.take(k),
            ) && renders(arith, viewport, scene, children.last(), transform, events.skip(k))
    }
}

impl Tree {
    /// What a walk needs of the arena.
    pub open spec fn scene(&self) -> Scene {
        Scene { nodes: self@, depths: self.depths(), limit: self.limit() }
    }

    /// Walks the tree and hands each node that the viewport can see to the
    /// renderer: a shape is drawn, an operation is pushed before its child is
    /// walked and popped after it, and the children of a group are walked in
    /// their order. Returns, as a ghost, the calls that it made.
    pub fn walk<W: WalkTree, A: Arithmetic>(&mut self, walker: &mut W, viewport: &Aabb, arith: &A) -> (made:
        Ghost<Seq<WalkEvent>>)
        requires
            old(self).wf(),
        ensures
            final(self).same(*old(self)),
            renders(arith, *viewport, old(self).scene(), 0, Mat3::spec_identity(), made@),
    {
        let (events, made) = self.drive(walker, viewport, arith, false);
        made
    }

    /// The calls that a walk of the tree makes on a renderer, in their
    /// order, each with the index of the node that it is made for.
    pub fn trace<A: Arithmetic>(&self, viewport: &Aabb, arith: &A) -> (events: Vec<WalkEvent>)
        requires
            self.wf(),
        ensures
            renders(arith, *viewport, self.scene(), 0, Mat3::spec_identity(), events@),
    {
        let mut nobody = Silent;
        let (events, made) = self.drive(&mut nobody, viewport, arith, true);
        events
    }
}

/// A renderer that draws nothing.
pub struct Silent;

impl WalkTree for Silent {
    fn on_shape(&mut self, shape: &Shape) {
    }

    fn push_operation(&mut self, operation: &Operation) {
    }

    fn pop_operation(&mut self, operation: &Operation) {
    }

    fn on_aabb(&mut self, aabb: &Aabb) {
    }
}

} // verus!
