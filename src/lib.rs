//! Integer core of a Monte Carlo path tracer: random streams, identifier
//! sources, the path-local medium stack, bounding-volume-hierarchy
//! bookkeeping, light selection and the other discrete decisions of the
//! renderer.
use vstd::prelude::*;

pub mod bvh;
pub mod camera;
pub mod filter;
pub mod medium;
pub mod object;
pub mod pathtracing;
pub mod polygon;
pub mod random;
pub mod render;
pub mod scene;
pub mod texture;

verus! {

} // verus!
