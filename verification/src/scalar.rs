//! Coordinates as the scene graph carries them.
//!
//! A coordinate is a single-precision binary floating-point number held by
//! its bit pattern. The library never does arithmetic on one. It orders them,
//! takes the smaller or the larger of two, and flips a sign: each of these is
//! exact on the bit pattern and is proved here against `Scalar::order`.

use vstd::prelude::*;

verus! {

/// One coordinate, by its bit pattern: the sign in the highest bit, the
/// magnitude in the other thirty-one.
#[derive(Clone, Copy, Debug, PartialEq, Eq, Structural)]
pub struct Scalar {
    pub bits: u32,
}

/// The bit that holds the sign.
pub const SIGN_BIT: u32 = 0x8000_0000;

/// The magnitude of an infinity; every larger magnitude is not a number.
pub const INFINITE_MAGNITUDE: u32 = 0x7f80_0000;

/// The bit pattern of the number one.
pub const ONE_BITS: u32 = 0x3f80_0000;

/// The bit pattern of positive infinity.
pub const INFINITY_BITS: u32 = 0x7f80_0000;

/// The bit pattern of negative infinity.
pub const NEG_INFINITY_BITS: u32 = 0xff80_0000;

impl Scalar {
    /// The coordinate with the given bit pattern.
    pub open spec fn of(bits: u32) -> Scalar {
        Scalar { bits }
    }

    /// Whether the sign bit is set.
    pub open spec fn negative(self) -> bool {
        self.bits >= SIGN_BIT
    }

    /// The bit pattern without its sign.
    pub open spec fn magnitude(self) -> int {
        if self.bits >= SIGN_BIT {
            self.bits - SIGN_BIT
        } else {
            self.bits as int
        }
    }

    /// Whether the bit pattern stands for no number.
    pub open spec fn is_nan(self) -> bool {
        self.magnitude() > INFINITE_MAGNITUDE
    }

    /// The place of a number among the numbers: two numbers compare as
    /// their places do. Both zeros have the place 0.
    pub open spec fn order(self) -> int {
        if self.negative() {
            -self.magnitude()
        } else {
            self.magnitude()
        }
    }

    /// `self < other` as numbers: false as soon as one of them is no number.
    pub open spec fn spec_lt(self, other: Scalar) -> bool {
        !self.is_nan() && !other.is_nan() && self.order() < other.order()
    }

    /// The smaller of two numbers. Where one of them is no number the
    /// other is the result; of the two zeros the negative one is the smaller.
    pub open spec fn spec_min(self, other: Scalar) -> Scalar {
        if self.is_nan() {
            other
        } else if other.is_nan() {
            self
        } else if other.order() < self.order() {
            other
        } else if self.order() < other.order() {
            self
        } else if self.negative() {
            self
        } else {
            other
        }
    }

    /// The larger of two numbers. Where one of them is no number the
    /// other is the result; of the two zeros the positive one is the larger.
    pub open spec fn spec_max(self, other: Scalar) -> Scalar {
        if self.is_nan() {
            other
        } else if other.is_nan() {
            self
        } else if other.order() > self.order() {
            other
        } else if self.order() > other.order() {
            self
        } else if self.negative() {
            other
        } else {
            self
        }
    }

    /// Two coordinates of which one at least is a number, or which are the
    /// same pattern: the smaller and the larger of such two do not depend on
    /// their order.
    pub open spec fn agrees(self, other: Scalar) -> bool {
        !self.is_nan() || !other.is_nan() || self == other
    }

    /// The same magnitude under the other sign.
    pub open spec fn spec_neg(self) -> Scalar {
        if self.bits >= SIGN_BIT {
            Scalar { bits: (self.bits - SIGN_BIT) as u32 }
        } else {
            Scalar { bits: (self.bits + SIGN_BIT) as u32 }
        }
    }

    /// The coordinate with the given bit pattern.
    pub fn from_bits(bits: u32) -> (r: Scalar)
        ensures
            r == Self::of(bits),
    {
        Scalar { bits }
    }

    /// The bit pattern of the coordinate.
    pub fn to_bits(self) -> (bits: u32)
        ensures
            bits == self.bits,
    {
        self.bits
    }

    /// The place of the coordinate among the numbers.
    fn place(self) -> (r: i64)
        ensures
            r == self.order(),
    {
        if self.bits >= SIGN_BIT {
            -((self.bits - SIGN_BIT) as i64)
        } else {
            self.bits as i64
        }
    }

    /// Whether the bit pattern stands for no number.
    pub fn nan(self) -> (r: bool)
        ensures
            r == self.is_nan(),
    {
        if self.bits >= SIGN_BIT {
            self.bits - SIGN_BIT > INFINITE_MAGNITUDE
        } else {
            self.bits > INFINITE_MAGNITUDE
        }
    }

    /// Whether `self < other` as numbers.
    pub fn lt(self, other: Scalar) -> (r: bool)
        ensures
            r == self.spec_lt(other),
    {
        !self.nan() && !other.nan() && self.place() < other.place()
    }

    /// The smaller of two numbers.
    pub fn min(self, other: Scalar) -> (r: Scalar)
        ensures
            r == self.spec_min(other),
    {
        if self.nan() {
            other
        } else if other.nan() {
            self
        } else if other.place() < self.place() {
            other
        } else if self.place() < other.place() {
            self
        } else if self.bits >= SIGN_BIT {
            self
        } else {
            other
        }
    }

    /// The larger of two numbers.
    pub fn max(self, other: Scalar) -> (r: Scalar)
        ensures
            r == self.spec_max(other),
    {
        if self.nan() {
            other
        } else if other.nan() {
            self
        } else if other.place() > self.place() {
            other
        } else if self.place() > other.place() {
            self
        } else if self.bits >= SIGN_BIT {
            other
        } else {
            self
        }
    }

    /// The same magnitude under the other sign.
    pub fn neg(self) -> (r: Scalar)
        ensures
            r == self.spec_neg(),
    {
        if self.bits >= SIGN_BIT {
            Scalar { bits: self.bits - SIGN_BIT }
        } else {
            Scalar { bits: self.bits + SIGN_BIT }
        }
    }
}

/// Two coordinates.
#[derive(Clone, Copy, Debug, PartialEq, Eq, Structural)]
pub struct Vec2 {
    pub x: Scalar,
    pub y: Scalar,
}

impl Vec2 {
    /// The same coordinate on both axes.
    pub open spec fn spec_splat(v: Scalar) -> Vec2 {
        Vec2 { x: v, y: v }
    }

    /// The smaller coordinate on each axis.
    pub open spec fn spec_min(self, other: Vec2) -> Vec2 {
        Vec2 { x: self.x.spec_min(other.x), y: self.y.spec_min(other.y) }
    }

    /// The larger coordinate on each axis.
    pub open spec fn spec_max(self, other: Vec2) -> Vec2 {
        Vec2 { x: self.x.spec_max(other.x), y: self.y.spec_max(other.y) }
    }

    /// Whether neither coordinate is a not-a-number pattern.
    pub open spec fn is_number(self) -> bool {
        !self.x.is_nan() && !self.y.is_nan()
    }

    /// The point with the given coordinates.
    pub fn new(x: Scalar, y: Scalar) -> (r: Vec2)
        ensures
            r == (Vec2 { x, y }),
    {
        Vec2 { x, y }
    }

    /// The same coordinate on both axes.
    pub fn splat(v: Scalar) -> (r: Vec2)
        ensures
            r == Self::spec_splat(v),
    {
        Vec2 { x: v, y: v }
    }

    /// The smaller coordinate on each axis.
    pub fn min(self, other: Vec2) -> (r: Vec2)
        ensures
            r == self.spec_min(other),
    {
        Vec2 { x: self.x.min(other.x), y: self.y.min(other.y) }
    }

    /// The larger coordinate on each axis.
    pub fn max(self, other: Vec2) -> (r: Vec2)
        ensures
            r == self.spec_max(other),
    {
        Vec2 { x: self.x.max(other.x), y: self.y.max(other.y) }
    }
}

/// Three coordinates: a colour, or a column of a transform.
#[derive(Clone, Copy, Debug, PartialEq, Eq, Structural)]
pub struct Vec3 {
    pub x: Scalar,
    pub y: Scalar,
    pub z: Scalar,
}

/// Four coordinates: the corner radii of a rounded rectangle.
#[derive(Clone, Copy, Debug, PartialEq, Eq, Structural)]
pub struct Vec4 {
    pub x: Scalar,
    pub y: Scalar,
    pub z: Scalar,
    pub w: Scalar,
}

/// A transform of the plane, by its three columns.
#[derive(Clone, Copy, Debug, PartialEq, Eq, Structural)]
pub struct Mat3 {
    pub x_axis: Vec3,
    pub y_axis: Vec3,
    pub z_axis: Vec3,
}

impl Mat3 {
    /// The transform that moves nothing.
    pub open spec fn spec_identity() -> Mat3 {
        Mat3 {
            x_axis: Vec3 { x: Scalar { bits: ONE_BITS }, y: Scalar { bits: 0 }, z: Scalar { bits: 0 } },
            y_axis: Vec3 { x: Scalar { bits: 0 }, y: Scalar { bits: ONE_BITS }, z: Scalar { bits: 0 } },
            z_axis: Vec3 { x: Scalar { bits: 0 }, y: Scalar { bits: 0 }, z: Scalar { bits: ONE_BITS } },
        }
    }

    /// The transform that moves nothing.
    pub fn identity() -> (r: Mat3)
        ensures
            r == Self::spec_identity(),
    {
        Mat3 {
            x_axis: Vec3 { x: Scalar { bits: ONE_BITS }, y: Scalar { bits: 0 }, z: Scalar { bits: 0 } },
            y_axis: Vec3 { x: Scalar { bits: 0 }, y: Scalar { bits: ONE_BITS }, z: Scalar { bits: 0 } },
            z_axis: Vec3 { x: Scalar { bits: 0 }, y: Scalar { bits: 0 }, z: Scalar { bits: ONE_BITS } },
        }
    }
}

} // verus!
