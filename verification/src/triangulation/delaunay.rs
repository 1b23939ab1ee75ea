//! Delaunay triangulation of a set of points.

use crate::delaunay::mesh::{Mesh, Sides};
use crate::delaunay::quad_edge::{QuadEdge, UNDEFINED_QUAD_EDGE};
use crate::delaunay::quad_edge_registry::QuadEdgeRegistryView;
use crate::geometries::{clone_points, Point, PointView, MIN_CONTOUR_VERTICES_COUNT};
use crate::operations::{
    is_sorted_unique,
    orientation_of,
    shrink_collinear_vertices,
    shrunk_collinear_vertices,
    to_sorted_unique_points,
};
use crate::oriented::Orientation;
use vstd::prelude::*;

verus! {

/// Mathematical state of a triangulation.
pub struct DelaunayTriangulationView {
    pub left_side: QuadEdge,
    pub mesh: QuadEdgeRegistryView,
    pub right_side: QuadEdge,
}

impl DelaunayTriangulationView {
    /// The mesh without edges over `endpoints`.
    pub open spec fn empty_mesh(endpoints: Seq<PointView>) -> QuadEdgeRegistryView {
        QuadEdgeRegistryView {
            endpoints,
            left_from_start: Seq::empty(),
            starts_indices: Seq::empty(),
        }
    }

    /// The triangulation is the one that the divide-and-conquer
    /// construction gives for these endpoints; fewer than two endpoints
    /// have no edge and no sides.
    pub open spec fn is_built_from(self, endpoints: Seq<PointView>) -> bool {
        if endpoints.len() < 2 {
            self == (DelaunayTriangulationView {
                left_side: UNDEFINED_QUAD_EDGE,
                mesh: Self::empty_mesh(endpoints),
                right_side: UNDEFINED_QUAD_EDGE,
            })
        } else {
            (Sides { mesh: self.mesh, left_side: self.left_side, right_side: self.right_side })
                == Self::empty_mesh(endpoints).triangulated(0, endpoints.len() as usize)
        }
    }

    pub open spec fn wf(self) -> bool {
        &&& self.mesh.wf()
        &&& if self.mesh.endpoints.len() < 2 {
            self.left_side == UNDEFINED_QUAD_EDGE && self.right_side == UNDEFINED_QUAD_EDGE
                && self.mesh.left_from_start.len() == 0
        } else {
            self.mesh.is_primal_edge(self.left_side) && self.mesh.is_primal_edge(self.right_side)
        }
    }

    /// The corners of the region that the triangulation covers: fewer
    /// than three endpoints as they are, else the endpoints around the
    /// unbounded face from the leftmost one on, without those at which the
    /// way goes straight on.
    pub open spec fn boundary_points(self) -> Seq<PointView> {
        if self.mesh.endpoints.len() < MIN_CONTOUR_VERTICES_COUNT {
            self.mesh.endpoints
        } else {
            let walked = self.mesh.boundary(
                self.left_side,
                self.left_side,
                self.mesh.left_from_start.len(),
            );
            shrunk_collinear_vertices(walked, walked.len() as int)
        }
    }
}

/// A Delaunay triangulation of a set of points.
pub struct DelaunayTriangulation {
    left_side: QuadEdge,
    mesh: Mesh,
    right_side: QuadEdge,
}

impl View for DelaunayTriangulation {
    type V = DelaunayTriangulationView;

    closed spec fn view(&self) -> DelaunayTriangulationView {
        DelaunayTriangulationView {
            left_side: self.left_side,
            mesh: self.mesh@,
            right_side: self.right_side,
        }
    }
}

impl DelaunayTriangulation {
    /// Triangulates the points: they are listed once each in increasing
    /// order, and the mesh is built over that list.
    #[verifier::rlimit(40)]
    pub fn from(endpoints: Vec<Point>) -> (result: Self)
        ensures
            is_sorted_unique(result@.mesh.endpoints, endpoints.deep_view()),
            result@.is_built_from(result@.mesh.endpoints),
            result@.wf(),
    {
        let endpoints = to_sorted_unique_points(&endpoints);
        let mut mesh = Mesh::from(endpoints);
        let (left_side, right_side) = mesh.delaunay_triangulation();
        Self { left_side, mesh, right_side }
    }

    /// The corners of the region that the triangulation covers, around
    /// it from the leftmost one on.
    #[verifier::rlimit(40)]
    pub fn to_boundary_points(&self) -> (result: Vec<Point>)
        requires
            self@.wf(),
        ensures
            result.deep_view() == self@.boundary_points(),
            forall|index: int|
                0 <= index < result.len() ==> self@.mesh.endpoints.contains(
                    #[trigger] result.deep_view()[index],
                ),
    {
        let endpoints = self.mesh.get_endpoints();
        if endpoints.len() < MIN_CONTOUR_VERTICES_COUNT {
            clone_points(endpoints)
        } else {
            let walked = self.mesh.to_boundary(self.left_side);
            let result = shrink_collinear_vertices(&walked);
            proof {
                assert forall|index: int| 0 <= index < result.len() implies self@.mesh.endpoints.contains(
                    #[trigger] result.deep_view()[index],
                ) by {
                    let point = result.deep_view()[index];
                    assert(walked.deep_view().contains(point));
                    let at = choose|at: int|
                        0 <= at < walked.deep_view().len() && walked.deep_view()[at] == point;
                    assert(self@.mesh.endpoints.contains(walked.deep_view()[at]));
                }
            }
            result
        }
    }

    /// Whether there is no edge, which is so with fewer than two points.
    pub fn is_empty(&self) -> (result: bool)
        requires
            self@.wf(),
        ensures
            result == (self@.mesh.left_from_start.len() == 0),
            result == (self@.left_side == UNDEFINED_QUAD_EDGE),
            result == (self@.right_side == UNDEFINED_QUAD_EDGE),
    {
        self.mesh.is_empty()
    }

    /// The triangles, each as its vertices counterclockwise from the
    /// least one.
    pub fn to_triangles_vertices(&self) -> (result: Vec<[Point; 3]>)
        requires
            self@.wf(),
        ensures
            result.deep_view() == self@.mesh.triangles(self@.mesh.left_from_start.len() as int),
            forall|index: int|
                0 <= index < result.len() ==> {
                    let triangle = #[trigger] result.deep_view()[index];
                    &&& self@.mesh.endpoints.contains(triangle[0])
                    &&& self@.mesh.endpoints.contains(triangle[1])
                    &&& self@.mesh.endpoints.contains(triangle[2])
                    &&& orientation_of(triangle[0], triangle[1], triangle[2])
                        == Orientation::Counterclockwise
                },
    {
        self.mesh.to_triangles_vertices()
    }
}

} // verus!
