//! Core of a stochastic path-tracing renderer: axis-aligned bounding boxes,
//! ray/primitive intersection, a bounding-volume hierarchy, material
//! scattering and the recursive integrator.
//!
//! All geometry lives on an integer grid: coordinates are `i64` scene units
//! and parametric distances along a ray are exact rationals, so every
//! intersection predicate is an exact statement over the integers rather
//! than an approximation.
pub mod util;
pub mod rat;
pub mod vec3;
pub mod ray;
pub mod aabb;
pub mod hittable;
pub mod sphere;
pub mod triangle;
pub mod bvh;
pub mod texture;
pub mod material;
pub mod render;
pub mod color;
pub mod camera;

use vstd::prelude::*;

verus! {

} // verus!
