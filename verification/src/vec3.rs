//! Scalars and three-component vectors as the scene graph stores them.
//!
//! The scene graph never adds or multiplies coordinates: it orders them,
//! keeps the smaller or the larger of two, and hands them on unchanged. A
//! scalar is therefore kept as the integer whose order is the numeric order
//! of the IEEE-754 single it stands for: the bit pattern itself for a value
//! with a clear sign bit, and the complement of the magnitude bits for one
//! with the sign bit set. Every finite value, both zeros and both infinities
//! have a key of their own, and `a < b` on keys is `a < b` on the numbers,
//! with negative zero just below positive zero. What is no number has a key
//! beyond those of the infinities, on the side of its sign.

use vstd::prelude::*;

verus! {

/// An ordered scalar key.
pub type Scalar = i32;

/// The key of positive zero.
pub const ZERO: Scalar = 0;

/// The key of positive infinity.
pub const INFINITY: Scalar = 0x7F80_0000;

/// The key of `1e-9`, rounded to the nearest single.
pub const TRACE_EPSILON: Scalar = 0x3089_705F;

/// The key of negative zero.
pub const NEGATIVE_ZERO: Scalar = -1;

/// The key of negative infinity.
pub const NEGATIVE_INFINITY: Scalar = -0x7F80_0001;

/// The key of one.
pub const ONE: Scalar = 0x3F80_0000;

/// The key of `1e-8`, rounded to the nearest single: below it, in size, a
/// component counts as zero.
pub const NEAR_ZERO: Scalar = 0x322B_CC77;

/// The key of the difference between one and the next single above it.
pub const EPSILON: Scalar = 0x3400_0000;

/// The key of the negative of the value with the key `a`.
pub open spec fn negated(a: Scalar) -> Scalar {
    (-a - 1) as Scalar
}

/// `a` is the key of a number below zero.
pub open spec fn negative(a: Scalar) -> bool {
    NEGATIVE_INFINITY <= a < NEGATIVE_ZERO
}

/// `a` is the key of a number above the one with the key `b`.
pub open spec fn above(a: Scalar, b: Scalar) -> bool {
    b < a <= INFINITY
}

/// The larger of two scalars.
pub open spec fn max_of(a: Scalar, b: Scalar) -> Scalar {
    if a < b { b } else { a }
}

/// The smaller of two scalars.
pub open spec fn min_of(a: Scalar, b: Scalar) -> Scalar {
    if b < a { b } else { a }
}

/// The key of the negative of a scalar.
pub fn negate(a: Scalar) -> (r: Scalar)
    ensures
        r == negated(a),
        negated(r) == a,
{
    if a == i32::MIN {
        i32::MAX
    } else {
        -a - 1
    }
}

/// Whether a scalar is below zero.
pub fn is_negative(a: Scalar) -> (r: bool)
    ensures
        r == negative(a),
{
    NEGATIVE_INFINITY <= a && a < NEGATIVE_ZERO
}

/// Whether the first scalar is a number above the second.
pub fn is_above(a: Scalar, b: Scalar) -> (r: bool)
    ensures
        r == above(a, b),
{
    b < a && a <= INFINITY
}

/// The larger of two scalars; on a tie, the first.
pub fn larger(a: Scalar, b: Scalar) -> (r: Scalar)
    ensures
        r == max_of(a, b),
{
    if a < b { b } else { a }
}

/// The smaller of two scalars; on a tie, the first.
pub fn smaller(a: Scalar, b: Scalar) -> (r: Scalar)
    ensures
        r == min_of(a, b),
{
    if b < a { b } else { a }
}

/// A point or a direction: three scalar keys.
#[derive(Clone, Copy, Debug, PartialEq, Eq, Structural)]
pub struct Vec3 {
    pub x: Scalar,
    pub y: Scalar,
    pub z: Scalar,
}

impl Vec3 {
    /// The vector of the same length that points the other way.
    pub fn neg(self) -> (v: Vec3)
        ensures
            v == (Vec3 { x: negated(self.x), y: negated(self.y), z: negated(self.z) }),
    {
        Vec3 { x: negate(self.x), y: negate(self.y), z: negate(self.z) }
    }

    /// The component that `idx` selects: `x` where `i` is a multiple of
    /// three, `y` where `i` is one more than a non-negative multiple of
    /// three, and `z` otherwise.
    pub open spec fn component(self, i: int) -> Scalar {
        if i % 3 == 0 {
            self.x
        } else if i >= 0 && i % 3 == 1 {
            self.y
        } else {
            self.z
        }
    }

    pub fn new(_x: Scalar, _y: Scalar, _z: Scalar) -> (v: Vec3)
        ensures
            v == (Vec3 { x: _x, y: _y, z: _z }),
    {
        Vec3 { x: _x, y: _y, z: _z }
    }

    /// Every component is smaller in size than `NEAR_ZERO`.
    pub open spec fn is_near_zero(self) -> bool {
        &&& negated(NEAR_ZERO) < self.x < NEAR_ZERO
        &&& negated(NEAR_ZERO) < self.y < NEAR_ZERO
        &&& negated(NEAR_ZERO) < self.z < NEAR_ZERO
    }

    /// Whether the vector is too short to give a direction.
    pub fn near_zero(&self) -> (r: bool)
        ensures
            r == self.is_near_zero(),
    {
        let s: Scalar = NEAR_ZERO;
        let low: Scalar = -s - 1;
        low < self.x && self.x < s && low < self.y && self.y < s && low < self.z && self.z < s
    }

    /// The component on axis `i`, counted modulo three.
    pub fn idx(&self, i: i8) -> (c: Scalar)
        ensures
            c == self.component(i as int),
    {
        let k: i8 = i % 3;
        if k == 0 {
            self.x
        } else if k == 1 {
            self.y
        } else {
            self.z
        }
    }
}

} // verus!
