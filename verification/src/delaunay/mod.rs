//! Delaunay triangulation on a quad-edge mesh.

pub mod quad_edge;
pub mod quad_edge_registry;
pub mod mesh;
