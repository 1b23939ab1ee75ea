//! Triangulations of point sets.

pub mod delaunay;
