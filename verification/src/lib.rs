//! A Monte Carlo ray tracer's core, modelled over exact fixed-point integer
//! arithmetic: axis-aligned bounding boxes, a bounding-volume hierarchy with
//! closest-hit traversal, spherical primitives, and the recursive scattering
//! integrator.  Scalars are `i64` values scaled by `SCALE`; distances along a
//! ray are `i128` values in the same scale.
use vstd::prelude::*;

pub mod aabb;
pub mod bvh;
pub mod color;
pub mod intersectable;
pub mod num;
pub mod render;
pub mod ray;
mod rng;
pub mod scene;
pub mod vector;

verus! {

/// One fixed-point unit: every scalar in the model is a multiple of 1/SCALE.
pub const SCALE: i64 = 65536;

/// Largest coordinate magnitude the geometry window admits.
pub const COORD_LIMIT: i64 = 268435456;

/// Largest direction-component magnitude a traced ray may carry.
pub const DIR_LIMIT: i64 = 67108864;

} // verus!
