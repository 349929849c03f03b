//! A path tracer's combinatorial core: the bounding volume hierarchy and its
//! closest-hit traversal, the scene aggregate, the depth-bounded radiance
//! recursion, the slab test that finds where a ray enters a box, the part of
//! a ray that runs through a medium, the Perlin lattice hash, and the raster
//! addressing that sits between colours and image bytes.
//!
//! Geometry itself is floating point and is handed to this library as
//! closures and as order keys (integers whose order is the order of the
//! distances they stand for).
pub mod bvh;
pub mod hit;
pub mod integrator;
pub mod medium;
pub mod perlin;
pub mod raster;
pub mod scene;
pub mod slab;
