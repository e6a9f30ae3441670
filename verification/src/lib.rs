//! The discrete core of a Monte Carlo path tracer.
//!
//! A renderer of this kind spends its time in real arithmetic, but its shape is
//! decided by a handful of discrete rules: how a bounding volume hierarchy
//! partitions the scene, which of two intersections a traversal keeps, how a
//! linear scan narrows its search, which gradient a noise lattice hands to a
//! cell corner, which of two textures a checker cell shows, where a texel sits
//! in a raster. Those rules live here, each with a contract.
//!
//! Scalars cross into this crate as `i64` order keys: the caller picks any
//! encoding of its ray parameters and coordinates that keeps `<` and `==`.

pub mod order;
mod random;
pub mod entity;
pub mod bvh;
pub mod perlin;
pub mod texture;
pub mod raster;
pub mod camera;
pub mod cuboid;
pub mod mat3;
