//! Points and directions of scene space.

use crate::scalar::Scalar;
use vstd::prelude::*;

verus! {

/// Three coordinates: a position or a direction.
#[derive(Clone, Copy, Debug, PartialEq, Eq, Structural)]
pub struct Vec3 {
    pub x: Scalar,
    pub y: Scalar,
    pub z: Scalar,
}

impl Vec3 {
    /// None of the three coordinates is an infinity or a NaN.
    pub open spec fn spec_is_finite(self) -> bool {
        self.x.is_finite() && self.y.is_finite() && self.z.is_finite()
    }

    pub fn new(x: Scalar, y: Scalar, z: Scalar) -> (v: Vec3)
        ensures
            v == (Vec3 { x, y, z }),
    {
        Vec3 { x, y, z }
    }

    /// The vector whose coordinates have the three bit patterns.
    pub fn from_bits(x: u32, y: u32, z: u32) -> (v: Vec3)
        ensures
            v.x.bits == x,
            v.y.bits == y,
            v.z.bits == z,
    {
        Vec3 { x: Scalar { bits: x }, y: Scalar { bits: y }, z: Scalar { bits: z } }
    }

    #[verifier::when_used_as_spec(spec_is_finite)]
    pub fn is_finite(self) -> (finite: bool)
        ensures
            finite == self.spec_is_finite(),
    {
        self.x.is_finite() && self.y.is_finite() && self.z.is_finite()
    }
}

} // verus!
