//! What a visible object of a scene has to offer.

use crate::pic::Color;
use crate::vector::Vec3;
use vstd::prelude::*;

verus! {

/// A shape that a ray can run into.
pub trait Hittable {
    /// Tests one step of a ray, the segment from `before` to `after`,
    /// against the shape, and gives the colour that the shape shows if the
    /// segment meets it.
    fn intersect(&self, before: Vec3, after: Vec3) -> Option<Color>;
}

/// `color` is an answer that `object` can give for the segment.
pub open spec fn answers<H: Hittable>(
    object: H,
    before: Vec3,
    after: Vec3,
    color: Option<Color>,
) -> bool {
    call_ensures(H::intersect, (&object, before, after), color)
}

} // verus!
