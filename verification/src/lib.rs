//! Exact planar geometry: a Bentley–Ottmann plane sweep over segments and a
//! divide-and-conquer Delaunay triangulation on a quad-edge mesh.

pub mod bentley_ottmann;
pub mod comparison;
pub mod delaunay;
pub mod fraction;
pub mod geometries;
pub mod incidence;
pub mod operations;
pub mod oriented;
pub mod reals;
pub mod relatable;
pub mod triangulation;
