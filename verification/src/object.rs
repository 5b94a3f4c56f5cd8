//! The two shapes of a scene and how a step of a ray is tested against them.
//!
//! A shape is tested with what was measured of the step: squared distances,
//! and for a disk the place where the step crosses its plane.

use crate::pic::Color;
use crate::scalar::{lemma_units_of_zero_and_one, Scalar};
use crate::vector::Vec3;
use vstd::prelude::*;

verus! {

/// A point at the squared distance `distance_squared` from the centre of a
/// sphere with the squared radius `radius_squared` lies strictly inside it.
pub open spec fn strictly_inside(distance_squared: Scalar, radius_squared: Scalar) -> bool {
    distance_squared.lt(radius_squared)
}

/// A step counts as meeting a sphere when one of its two ends lies strictly
/// inside. A step that passes right through, with both ends outside, does
/// not count.
pub open spec fn sphere_is_hit(first: Scalar, second: Scalar, radius_squared: Scalar) -> bool {
    strictly_inside(first, radius_squared) || strictly_inside(second, radius_squared)
}

/// The step crosses the plane between its two ends: `t` is a number from 0
/// to 1, both included. A NaN, as a step along the plane gives, is not.
pub open spec fn crosses_within_step(t: Scalar) -> bool {
    !t.is_nan() && !t.lt(Scalar::zero()) && !t.gt(Scalar::one())
}

/// A step meets a disk when it crosses the plane of the disk between its
/// ends, at a point closer to the centre than the radius.
pub open spec fn disk_is_hit(t: Scalar, distance_squared: Scalar, radius_squared: Scalar) -> bool {
    crosses_within_step(t) && distance_squared.lt(radius_squared)
}

#[derive(Clone, Copy, Debug)]
pub struct Sphere {
    pub position: Vec3,
    pub color: Color,
    pub radius: Scalar,
}

impl Sphere {
    /// Whether a point lies strictly inside the sphere, from its squared
    /// distance to the centre and the squared radius. A point at exactly the
    /// radius is outside.
    pub fn inside_sphere(&self, distance_squared: Scalar, radius_squared: Scalar) -> (inside: bool)
        ensures
            inside == strictly_inside(distance_squared, radius_squared),
    {
        distance_squared.lt(radius_squared)
    }

    /// Whether a step meets the sphere, from the squared distances of its
    /// two ends to the centre and the squared radius.
    pub fn intersect_sphere(
        &self,
        first: Scalar,
        second: Scalar,
        radius_squared: Scalar,
    ) -> (hit: bool)
        ensures
            hit == sphere_is_hit(first, second, radius_squared),
    {
        self.inside_sphere(first, radius_squared) || self.inside_sphere(second, radius_squared)
    }

    /// The colour of the sphere if the step meets it.
    pub fn intersect(
        &self,
        first: Scalar,
        second: Scalar,
        radius_squared: Scalar,
    ) -> (color: Option<Color>)
        ensures
            color == if sphere_is_hit(first, second, radius_squared) {
                Some(self.color)
            } else {
                None
            },
    {
        if self.intersect_sphere(first, second, radius_squared) {
            Some(self.color)
        } else {
            None
        }
    }
}

#[derive(Clone, Copy, Debug)]
pub struct Disk {
    pub position: Vec3,
    pub color: Color,
    pub radius: Scalar,
    pub normal: Vec3,
}

impl Disk {
    /// Whether a step meets the disk. `t` says where the step crosses the
    /// plane of the disk, 0 at its start and 1 at its end;
    /// `distance_squared` is the squared distance of that crossing from the
    /// centre.
    pub fn intersect_disk(
        &self,
        t: Scalar,
        distance_squared: Scalar,
        radius_squared: Scalar,
    ) -> (hit: bool)
        ensures
            hit == disk_is_hit(t, distance_squared, radius_squared),
    {
        if t.is_nan() || t.lt(Scalar::zero()) || t.gt(Scalar::one()) {
            return false;
        }
        distance_squared.lt(radius_squared)
    }

    /// The colour of the disk if the step meets it.
    pub fn intersect(
        &self,
        t: Scalar,
        distance_squared: Scalar,
        radius_squared: Scalar,
    ) -> (color: Option<Color>)
        ensures
            color == if disk_is_hit(t, distance_squared, radius_squared) {
                Some(self.color)
            } else {
                None
            },
    {
        if self.intersect_disk(t, distance_squared, radius_squared) {
            Some(self.color)
        } else {
            None
        }
    }
}

/// A step with an end strictly inside a sphere meets it, wherever the other
/// end lies.
pub proof fn lemma_end_inside_is_hit(inside: Scalar, other: Scalar, radius_squared: Scalar)
    requires
        strictly_inside(inside, radius_squared),
    ensures
        sphere_is_hit(inside, other, radius_squared),
        sphere_is_hit(other, inside, radius_squared),
{
}

/// A point at exactly the radius is not inside: a squared distance equal to
/// the squared radius, or larger, is outside.
pub proof fn lemma_surface_is_outside(distance_squared: Scalar, radius_squared: Scalar)
    requires
        !distance_squared.is_nan(),
        !radius_squared.is_nan(),
        distance_squared.units() >= radius_squared.units(),
    ensures
        !strictly_inside(distance_squared, radius_squared),
{
}

/// A step with both ends outside a sphere does not meet it, even where the
/// straight line between them passes through.
pub proof fn lemma_ends_outside_is_miss(first: Scalar, second: Scalar, radius_squared: Scalar)
    requires
        !strictly_inside(first, radius_squared),
        !strictly_inside(second, radius_squared),
    ensures
        !sphere_is_hit(first, second, radius_squared),
{
}

/// A step that crosses the plane of a disk before its start or after its
/// end, or not at all, does not meet the disk, however close to the centre
/// the crossing lies.
pub proof fn lemma_crossing_outside_step_is_miss(
    t: Scalar,
    distance_squared: Scalar,
    radius_squared: Scalar,
)
    requires
        t.is_nan() || t.units() < 0 || t.units() > Scalar::one().units(),
    ensures
        !disk_is_hit(t, distance_squared, radius_squared),
{
    lemma_units_of_zero_and_one();
}

} // verus!
