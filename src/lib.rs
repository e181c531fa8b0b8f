//! Acceleration-structure core of a GPU path tracer: fixed-point scene
//! geometry, a median-split bounding-volume hierarchy builder, and a
//! fixed-capacity scene aggregator whose contents a GPU layer uploads.
pub mod geometry;
pub mod bvh;
pub mod bvh_laws;
pub mod scene;
pub mod mesh;
pub mod layout;
