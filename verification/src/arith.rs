//! The arithmetic on coordinates that the scene graph asks of its caller.
//!
//! The library holds coordinates by their bit patterns and does no rounding
//! arithmetic of its own. Where a bounding box or a transform needs a sum, a
//! product or a rotation, it calls one of these methods. No method carries a
//! contract: what the library proves holds for every implementation, and its
//! own contracts say of each such value only that the method returned it.

use vstd::prelude::*;
use crate::scalar::{Mat3, Scalar, Vec2};

verus! {

/// Rounding arithmetic on coordinates, in single precision.
pub trait Arithmetic {
    /// `a + b` on each axis.
    fn sum(&self, a: Vec2, b: Vec2) -> Vec2;

    /// `a - b` on each axis.
    fn difference(&self, a: Vec2, b: Vec2) -> Vec2;

    /// `a * factor` on each axis.
    fn scaled(&self, a: Vec2, factor: Scalar) -> Vec2;

    /// `a` turned about the origin by `angle` radians.
    fn rotated(&self, a: Vec2, angle: Scalar) -> Vec2;

    /// `count`, as a number, times `unit`.
    fn times(&self, count: usize, unit: Scalar) -> Scalar;

    /// The transform that moves by `offset`.
    fn translation(&self, offset: Vec2) -> Mat3;

    /// The transform that turns about the origin by `angle` radians.
    fn rotation(&self, angle: Scalar) -> Mat3;

    /// The transform that scales both axes by `scale`.
    fn scaling(&self, scale: Scalar) -> Mat3;

    /// The transform `a · b`: `b` first, then `a`.
    fn product(&self, a: &Mat3, b: &Mat3) -> Mat3;

    /// The point `p` under the transform `m`.
    fn transform_point(&self, m: &Mat3, p: Vec2) -> Vec2;
}

} // verus!
