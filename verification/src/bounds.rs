//! The box of a node, from its kind and the boxes of its children.

use vstd::prelude::*;
use vstd::utf8::encode_utf8;
use crate::aabb::Aabb;
use crate::arena::slab_get;
use crate::arith::Arithmetic;
use crate::forest::Nodes;
use crate::node::{Node, NodeKind};
use crate::protocol::{Operation, Shape};
use crate::scalar::{Scalar, Vec2};
use crate::tree::Tree;

verus! {

/// The bit pattern of the number -5: where the box of a text begins on the
/// horizontal axis.
pub const TEXT_LEFT: u32 = 0xc0a0_0000;

/// The bit pattern of the number -10: where the box of a text begins on the
/// vertical axis.
pub const TEXT_TOP: u32 = 0xc120_0000;

/// The bit pattern of the number 5: where the box of a text ends on the
/// vertical axis.
pub const TEXT_BOTTOM: u32 = 0x40a0_0000;

/// The bit pattern of the number 10: the width that the box of a text has
/// for each byte of the text.
pub const TEXT_ADVANCE: u32 = 0x4120_0000;

/// The length of a string in bytes.
pub open spec fn byte_len(s: String) -> nat {
    encode_utf8(s@).len()
}

/// `b` is the box of `shape`: nothing for the empty shape, the radius to
/// each side for a circle, the two corners for a rectangle, rounded or not,
/// and for a text a box from (-5, -10) to ten times the length of the text
/// in bytes, as `arith` gave the product, and 5.
pub open spec fn shape_bounds<A: Arithmetic>(arith: &A, shape: Shape, b: Aabb) -> bool {
    match shape {
        Shape::Empty => b == Aabb::spec_invalid(),
        Shape::Circle { radius } => b == (Aabb {
            min: Vec2::spec_splat(radius.spec_neg()),
            max: Vec2::spec_splat(radius),
        }),
        Shape::Rectangle { min, max } => b == (Aabb { min, max }),
        Shape::RoundedRectangle { min, max, radii } => b == (Aabb { min, max }),
        Shape::Text { content, font } => {
            &&& b.min == (Vec2 { x: Scalar { bits: TEXT_LEFT }, y: Scalar { bits: TEXT_TOP } })
            &&& b.max.y == (Scalar { bits: TEXT_BOTTOM })
            &&& call_ensures(
                A::times,
                (arith, byte_len(content) as usize, Scalar { bits: TEXT_ADVANCE }),
                b.max.x,
            )
        },
    }
}

/// `turned` holds the four corners of `child`, each as `arith` turned it by
/// `angle`.
pub open spec fn turned_corners<A: Arithmetic>(
    arith: &A,
    child: Aabb,
    angle: Scalar,
    turned: Seq<Vec2>,
) -> bool {
    &&& turned.len() == 4
    &&& forall|i: int|
        0 <= i < 4 ==> call_ensures(A::rotated, (arith, child.spec_corners()[i], angle), #[trigger] turned[i])
}

/// `b` is the box of an operation over a child with the box `child`: the
/// child's box moved by a translation, scaled by a scale, widened by the
/// radius of a blur on all sides, the box around its four turned corners for
/// a rotation, and the child's own box for the other operations. Each sum,
/// product and turn is what `arith` returned for it.
pub open spec fn operation_bounds<A: Arithmetic>(
    arith: &A,
    operation: Operation,
    child: Aabb,
    b: Aabb,
) -> bool {
    match operation {
        Operation::Translate { offset } => {
            &&& call_ensures(A::sum, (arith, child.min, offset), b.min)
            &&& call_ensures(A::sum, (arith, child.max, offset), b.max)
        },
        Operation::Rotation { angle } => exists|turned: Seq<Vec2>|
            #[trigger] turned_corners(arith, child, angle, turned) && b == Aabb::spec_around(turned),
        Operation::Scale { scale } => {
            &&& call_ensures(A::scaled, (arith, child.min, scale), b.min)
            &&& call_ensures(A::scaled, (arith, child.max, scale), b.max)
        },
        Operation::Blur { radius } => {
            &&& call_ensures(A::difference, (arith, child.min, Vec2::spec_splat(radius)), b.min)
            &&& call_ensures(A::sum, (arith, child.max, Vec2::spec_splat(radius)), b.max)
        },
        Operation::Stroke(_) => b == child,
        Operation::Opacity { opacity } => b == child,
    }
}

/// The boxes of the given nodes, in their order.
pub open spec fn child_boxes(nodes: Nodes, children: Seq<usize>) -> Seq<Aabb> {
    Seq::new(children.len(), |i: int| nodes[children[i]].aabb)
}

/// `b` is the box of a node of the given kind over the arena `nodes`: for
/// a group, the union of its children's boxes.
pub open spec fn kind_bounds<A: Arithmetic>(arith: &A, nodes: Nodes, kind: NodeKind, b: Aabb) -> bool {
    match kind {
        NodeKind::Shape(shape) => shape_bounds(arith, shape, b),
        NodeKind::Operation { operation, child } => operation_bounds(
            arith,
            operation,
            nodes[child].aabb,
            b,
        ),
        NodeKind::Group(children) => b == Aabb::spec_union_all(child_boxes(nodes, children@)),
    }
}

/// The node `id` of the arena carries the box of its kind.
pub open spec fn measured<A: Arithmetic>(arith: &A, nodes: Nodes, id: usize) -> bool {
    kind_bounds(arith, nodes, nodes[id].kind, nodes[id].aabb)
}

/// Every child that `kind` names is in the arena.
pub open spec fn children_present(nodes: Nodes, kind: NodeKind) -> bool {
    forall|i: int| 0 <= i < kind.children().len() ==> #[trigger] nodes.contains_key(kind.children()[i])
}

/// The box of a shape.
pub fn shape_box<A: Arithmetic>(shape: &Shape, arith: &A) -> (b: Aabb)
    ensures
        shape_bounds(arith, *shape, b),
{
    match shape {
        Shape::Empty => Aabb::invalid(),
        Shape::Circle { radius } => Aabb { min: Vec2::splat(radius.neg()), max: Vec2::splat(*radius) },
        Shape::Rectangle { min, max } => Aabb { min: *min, max: *max },
        Shape::RoundedRectangle { min, max, radii } => Aabb { min: *min, max: *max },
        Shape::Text { content, font } => {
            let width = arith.times(content.as_str().len(), Scalar { bits: TEXT_ADVANCE });
            Aabb {
                min: Vec2 { x: Scalar { bits: TEXT_LEFT }, y: Scalar { bits: TEXT_TOP } },
                max: Vec2 { x: width, y: Scalar { bits: TEXT_BOTTOM } },
            }
        },
    }
}

/// The box of an operation over a child with the box `child`.
pub fn operation_box<A: Arithmetic>(operation: &Operation, child: &Aabb, arith: &A) -> (b: Aabb)
    ensures
        operation_bounds(arith, *operation, *child, b),
{
    match operation {
        Operation::Translate { offset } => Aabb {
            min: arith.sum(child.min, *offset),
            max: arith.sum(child.max, *offset),
        },
        Operation::Rotation { angle } => {
            let corners = child.corners();
            let turned = [
                arith.rotated(corners[0], *angle),
                arith.rotated(corners[1], *angle),
                arith.rotated(corners[2], *angle),
                arith.rotated(corners[3], *angle),
            ];
            let b = Aabb::around(&turned);
            assert(turned_corners(arith, *child, *angle, turned@));
            b
        },
        Operation::Scale { scale } => Aabb {
            min: arith.scaled(child.min, *scale),
            max: arith.scaled(child.max, *scale),
        },
        Operation::Blur { radius } => Aabb {
            min: arith.difference(child.min, Vec2::splat(*radius)),
            max: arith.sum(child.max, Vec2::splat(*radius)),
        },
        Operation::Stroke(_) => *child,
        Operation::Opacity { opacity } => *child,
    }
}

impl Tree {
    /// Makes a node of the given kind, with the box of that kind over the
    /// boxes that the children carry now.
    pub fn create_new_node<A: Arithmetic>(&mut self, kind: NodeKind, arith: &A) -> (node: Node)
        requires
            children_present(old(self)@, kind),
        ensures
            *final(self) == *old(self),
            node.kind == kind,
            !node.owned,
            !node.reused,
            kind_bounds(arith, old(self)@, kind, node.aabb),
    {
        let aabb = match &kind {
            NodeKind::Shape(shape) => shape_box(shape, arith),
            NodeKind::Operation { operation, child } => {
                assert(self@.contains_key(kind.children()[0]));
                let found = slab_get(&self.nodes, *child);
                operation_box(operation, &found.unwrap().aabb, arith)
            },
            NodeKind::Group(children) => {
                let mut aabb = Aabb::invalid();
                let mut i: usize = 0;
                while i < children.len()
                    invariant
                        i <= children.len(),
                        kind == NodeKind::Group(*children),
                        children_present(self@, kind),
                        aabb == Aabb::spec_union_all(child_boxes(self@, children@.take(i as int))),
                    decreases children.len() - i,
                {
                    assert(self@.contains_key(kind.children()[i as int]));
                    let found = slab_get(&self.nodes, children[i]);
                    assert(child_boxes(self@, children@.take(i + 1)).drop_last() =~= child_boxes(
                        self@,
                        children@.take(i as int),
                    ));
                    aabb = aabb.union(&found.unwrap().aabb);
                    i += 1;
                }
                assert(children@.take(children.len() as int) =~= children@);
                aabb
            },
        };
        Node::new(kind, aabb)
    }
}

} // verus!
