//! Axis-aligned bounding boxes.

use vstd::prelude::*;
use crate::scalar::{Scalar, Vec2, INFINITY_BITS, NEG_INFINITY_BITS};

verus! {

/// A box with sides along the axes, from its smallest corner to its largest.
#[derive(Clone, Copy, Debug, PartialEq, Eq, Structural)]
pub struct Aabb {
    pub min: Vec2,
    pub max: Vec2,
}

impl Aabb {
    /// The box that holds nothing: its smallest corner lies at positive
    /// infinity and its largest at negative infinity.
    pub open spec fn spec_invalid() -> Aabb {
        Aabb {
            min: Vec2::spec_splat(Scalar { bits: INFINITY_BITS }),
            max: Vec2::spec_splat(Scalar { bits: NEG_INFINITY_BITS }),
        }
    }

    /// Whether no coordinate of the box is a not-a-number pattern.
    pub open spec fn is_number(self) -> bool {
        self.min.is_number() && self.max.is_number()
    }

    /// The box on each axis from the smaller of the two minima to the larger
    /// of the two maxima.
    pub open spec fn spec_union(self, other: Aabb) -> Aabb {
        Aabb { min: self.min.spec_min(other.min), max: self.max.spec_max(other.max) }
    }

    /// Whether the interiors of two boxes meet: boxes that only touch do not.
    pub open spec fn spec_is_intersecting(self, other: Aabb) -> bool {
        &&& self.min.x.spec_lt(other.max.x)
        &&& other.min.x.spec_lt(self.max.x)
        &&& self.min.y.spec_lt(other.max.y)
        &&& other.min.y.spec_lt(self.max.y)
    }

    /// The four corners: the smallest, the two mixed ones, the largest.
    pub open spec fn spec_corners(self) -> Seq<Vec2> {
        seq![
            self.min,
            Vec2 { x: self.min.x, y: self.max.y },
            Vec2 { x: self.max.x, y: self.min.y },
            self.max,
        ]
    }

    /// The smallest box around the given points, taken in their order.
    pub open spec fn spec_around(points: Seq<Vec2>) -> Aabb
        decreases points.len(),
    {
        if points.len() == 0 {
            Self::spec_invalid()
        } else {
            let rest = Self::spec_around(points.drop_last());
            Aabb { min: rest.min.spec_min(points.last()), max: rest.max.spec_max(points.last()) }
        }
    }

    /// The union of the given boxes, taken in their order and starting from
    /// the box that holds nothing.
    pub open spec fn spec_union_all(boxes: Seq<Aabb>) -> Aabb
        decreases boxes.len(),
    {
        if boxes.len() == 0 {
            Self::spec_invalid()
        } else {
            Self::spec_union_all(boxes.drop_last()).spec_union(boxes.last())
        }
    }

    /// The box that holds nothing.
    pub fn invalid() -> (r: Aabb)
        ensures
            r == Self::spec_invalid(),
    {
        Aabb {
            min: Vec2::splat(Scalar { bits: INFINITY_BITS }),
            max: Vec2::splat(Scalar { bits: NEG_INFINITY_BITS }),
        }
    }

    /// The smallest box around both boxes.
    pub fn union(&self, other: &Aabb) -> (r: Aabb)
        ensures
            r == self.spec_union(*other),
    {
        Aabb { min: self.min.min(other.min), max: self.max.max(other.max) }
    }

    /// Whether the interiors of the two boxes meet.
    pub fn is_intersecting(&self, other: &Aabb) -> (r: bool)
        ensures
            r == self.spec_is_intersecting(*other),
    {
        self.min.x.lt(other.max.x) && other.min.x.lt(self.max.x) && self.min.y.lt(other.max.y)
            && other.min.y.lt(self.max.y)
    }

    /// The four corners of the box.
    pub fn corners(&self) -> (r: [Vec2; 4])
        ensures
            r@ == self.spec_corners(),
    {
        let r = [
            self.min,
            Vec2 { x: self.min.x, y: self.max.y },
            Vec2 { x: self.max.x, y: self.min.y },
            self.max,
        ];
        assert(r@ =~= self.spec_corners());
        r
    }

    /// The smallest box around four points.
    pub fn around(points: &[Vec2; 4]) -> (r: Aabb)
        ensures
            r == Self::spec_around(points@),
    {
        let mut r = Aabb::invalid();
        let mut i: usize = 0;
        while i < 4
            invariant
                i <= 4,
                points@.len() == 4,
                r == Self::spec_around(points@.take(i as int)),
            decreases 4 - i,
        {
            assert(points@.take(i + 1).drop_last() =~= points@.take(i as int));
            r = Aabb { min: r.min.min(points[i]), max: r.max.max(points[i]) };
            i += 1;
        }
        assert(points@.take(4) =~= points@);
        r
    }
}

impl Default for Aabb {
    /// The box that is the origin alone.
    fn default() -> (r: Aabb)
        ensures
            r.min == Vec2::spec_splat(Scalar { bits: 0 }),
            r.max == Vec2::spec_splat(Scalar { bits: 0 }),
    {
        Aabb { min: Vec2::splat(Scalar { bits: 0 }), max: Vec2::splat(Scalar { bits: 0 }) }
    }
}

/// The box that holds nothing is the identity of the union, on boxes whose
/// coordinates are numbers.
pub proof fn lemma_union_identity(a: Aabb)
    requires
        a.is_number(),
    ensures
        Aabb::spec_invalid().spec_union(a) == a,
        a.spec_union(Aabb::spec_invalid()) == a,
{
}

/// The union of two boxes does not depend on their order, unless a
/// coordinate of the one and the same coordinate of the other are two
/// different not-a-number patterns.
pub proof fn lemma_union_commutes(a: Aabb, b: Aabb)
    requires
        a.min.x.agrees(b.min.x),
        a.min.y.agrees(b.min.y),
        a.max.x.agrees(b.max.x),
        a.max.y.agrees(b.max.y),
    ensures
        a.spec_union(b) == b.spec_union(a),
{
}

/// A box whose largest corner is not beyond its smallest on some axis meets
/// no box; the box that holds nothing is one.
pub proof fn lemma_invalid_meets_nothing(other: Aabb)
    ensures
        !Aabb::spec_invalid().spec_is_intersecting(other),
        !other.spec_is_intersecting(Aabb::spec_invalid()),
{
}

} // verus!
