//! The camera of a scene.

use crate::vector::Vec3;
use vstd::prelude::*;

verus! {

/// A camera as its construction leaves it: where it stands, the three axes
/// of its view, and the rectangle in scene space that it looks through.
#[derive(Clone, Copy, Debug)]
pub struct Camera {
    pub origin: Vec3,
    /// The viewport's bottom edge, from left to right.
    pub horizontal: Vec3,
    /// The viewport's left edge, from bottom to top.
    pub vertical: Vec3,
    pub lower_left_corner: Vec3,
    /// Unit vector to the right.
    pub u: Vec3,
    /// Unit vector upwards.
    pub v: Vec3,
    /// Unit vector backwards, from what is looked at to the camera.
    pub w: Vec3,
}

} // verus!
