//! Procedural voxel tree generation: a dense cubic voxel volume, integer
//! rasterization primitives (digital lines, thick segments, leaf clusters),
//! and two tree-growth engines (a grammar-driven recursive recipe and an
//! iterative space-colonization simulation), all in fixed-point arithmetic.

pub mod geom;
pub mod grammar;
pub mod growth;
pub mod queue_indices;
pub mod raster;
pub mod rot;
pub mod volume;
