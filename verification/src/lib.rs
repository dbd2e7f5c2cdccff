//! A small verified path tracer.
//!
//! Scalars are fixed-point numbers: an `i128` raw value `v` stands for the
//! real number `v / SCALE`.  All geometry, intersection and shading logic is
//! verified; the only trusted code is the thin layer over the random number
//! generator used for sampling.

pub mod math;
pub mod vec3;
pub mod ray;
pub mod hittable;
pub mod geometry;
pub mod rng;
pub mod color;
pub mod camera;

pub use math::SCALE;
