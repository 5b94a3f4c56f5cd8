//! The deciding core of a gravitational-lens ray tracer.
//!
//! Every number of a scene is a single-precision value held as its IEEE-754
//! bit pattern. The crate classifies and orders such values, decides when a
//! traced ray has escaped, hit an object or run out of steps, lays the
//! finished pixels out as a picture and writes the picture as text. The
//! arithmetic that measures a scene and moves a ray is the caller's.

pub mod camera;
pub mod hittable;
pub mod object;
pub mod pic;
pub mod render;
pub mod rounding;
pub mod scalar;
pub mod vector;
