//! Divide-and-conquer construction of a Delaunay triangulation.

use crate::delaunay::quad_edge::{
    is_primal,
    lemma_rotations,
    opposite,
    to_opposite_edge,
    QuadEdge,
    UNDEFINED_QUAD_EDGE,
};
use crate::delaunay::quad_edge_registry::{QuadEdgeRegistry, QuadEdgeRegistryView};
use crate::geometries::{point_lt, Point, PointView};
use crate::operations::{is_inside_circle, is_point_inside_circle, orient, orientation_of};
use crate::oriented::Orientation;
use vstd::prelude::*;

verus! {

/// A mesh with a candidate for the next edge to be joined with the base
/// edge, if there is one.
pub struct Candidate {
    pub mesh: QuadEdgeRegistryView,
    pub edge: Option<QuadEdge>,
}

/// A mesh with the edges out of its leftmost and into its rightmost
/// endpoint that have the unbounded face on their right and left.
pub struct Sides {
    pub mesh: QuadEdgeRegistryView,
    pub left_side: QuadEdge,
    pub right_side: QuadEdge,
}

impl QuadEdgeRegistryView {
    /// On which side of the directed `edge` the `point` lies.
    pub open spec fn point_to_edge_orientation(self, edge: QuadEdge, point: PointView) -> Orientation {
        orientation_of(self.start(edge), self.end(edge), point)
    }

    /// A mesh of the one edge from an endpoint to the next.
    pub open spec fn with_segment(self, start_index: usize) -> Sides {
        let edge = self.left_from_start.len() as usize;
        Sides {
            mesh: self.create_edge(start_index, (start_index + 1) as usize),
            left_side: edge,
            right_side: opposite(edge),
        }
    }

    /// A mesh of three endpoints in increasing order: a chain of two
    /// edges, closed to a triangle by a third unless they lie on a line.
    pub open spec fn with_triangle(
        self,
        left_index: usize,
        mid_index: usize,
        right_index: usize,
    ) -> Sides {
        let first_edge = self.left_from_start.len() as usize;
        let second_edge = (self.left_from_start.len() + 4) as usize;
        let third_edge = (self.left_from_start.len() + 8) as usize;
        let chained = self.create_edge(left_index, mid_index).create_edge(
            mid_index,
            right_index,
        ).splice_edges(opposite(first_edge), second_edge);
        match orientation_of(
            self.endpoints[left_index as int],
            self.endpoints[mid_index as int],
            self.endpoints[right_index as int],
        ) {
            Orientation::Counterclockwise => Sides {
                mesh: chained.connect_edges(second_edge, first_edge),
                left_side: first_edge,
                right_side: opposite(second_edge),
            },
            Orientation::Clockwise => Sides {
                mesh: chained.connect_edges(second_edge, first_edge),
                left_side: opposite(third_edge),
                right_side: third_edge,
            },
            Orientation::Collinear => Sides {
                mesh: chained,
                left_side: first_edge,
                right_side: opposite(second_edge),
            },
        }
    }

    /// The edges of the left and of the right half from whose starts the
    /// lower common tangent of the halves runs: found by walking down the
    /// sides that face each other, for at most `steps` edges.
    pub open spec fn lower_tangent(self, left_edge: QuadEdge, right_edge: QuadEdge, steps: nat) -> (
        QuadEdge,
        QuadEdge,
    )
        decreases steps,
    {
        if steps == 0 {
            (left_edge, right_edge)
        } else if self.point_to_edge_orientation(left_edge, self.start(right_edge))
            == Orientation::Counterclockwise {
            self.lower_tangent(self.left_from_end_of(left_edge), right_edge, (steps - 1) as nat)
        } else if self.point_to_edge_orientation(right_edge, self.start(left_edge))
            == Orientation::Clockwise {
            self.lower_tangent(left_edge, self.right_from_end_of(right_edge), (steps - 1) as nat)
        } else {
            (left_edge, right_edge)
        }
    }

    /// Whether the end of `edge` lies above the base edge, to its right.
    pub open spec fn is_above(self, base_edge: QuadEdge, edge: QuadEdge) -> bool {
        self.point_to_edge_orientation(base_edge, self.end(edge)) == Orientation::Clockwise
    }

    /// Whether `candidate` has to give way to `next_candidate`, whose end
    /// lies above the base edge and inside the circle through the base
    /// edge's ends and the end of `candidate`.
    pub open spec fn gives_way(
        self,
        base_edge: QuadEdge,
        candidate: QuadEdge,
        next_candidate: QuadEdge,
    ) -> bool {
        self.is_above(base_edge, next_candidate) && is_inside_circle(
            self.end(base_edge),
            self.start(base_edge),
            self.end(candidate),
            self.end(next_candidate),
        )
    }

    /// The candidate on the left that is left after the edges that give
    /// way were deleted, at most `steps` of them.
    pub open spec fn pruned_left(self, base_edge: QuadEdge, candidate: QuadEdge, steps: nat) -> (
        Self,
        QuadEdge,
    )
        decreases steps,
    {
        let next_candidate = self.left_from_start_of(candidate);
        if steps > 0 && self.gives_way(base_edge, candidate, next_candidate) {
            self.delete_edge(candidate).pruned_left(base_edge, next_candidate, (steps - 1) as nat)
        } else {
            (self, candidate)
        }
    }

    /// The candidate on the right that is left after the edges that give
    /// way were deleted, at most `steps` of them.
    pub open spec fn pruned_right(self, base_edge: QuadEdge, candidate: QuadEdge, steps: nat) -> (
        Self,
        QuadEdge,
    )
        decreases steps,
    {
        let next_candidate = self.right_from_start_of(candidate);
        if steps > 0 && self.gives_way(base_edge, candidate, next_candidate) {
            self.delete_edge(candidate).pruned_right(base_edge, next_candidate, (steps - 1) as nat)
        } else {
            (self, candidate)
        }
    }

    /// The edge of the left half that may be joined with the base edge
    /// next: the first one counterclockwise around the base edge's end
    /// that ends above the base edge and does not give way.
    pub open spec fn left_candidate(self, base_edge: QuadEdge) -> Candidate {
        let first = self.left_from_start_of(opposite(base_edge));
        if self.is_above(base_edge, first) {
            let (mesh, edge) = self.pruned_left(base_edge, first, self.left_from_start.len());
            Candidate { mesh, edge: Some(edge) }
        } else {
            Candidate { mesh: self, edge: None }
        }
    }

    /// The edge of the right half that may be joined with the base edge
    /// next: the first one clockwise around the base edge's start that ends
    /// above the base edge and does not give way.
    pub open spec fn right_candidate(self, base_edge: QuadEdge) -> Candidate {
        let first = self.right_from_start_of(base_edge);
        if self.is_above(base_edge, first) {
            let (mesh, edge) = self.pruned_right(base_edge, first, self.left_from_start.len());
            Candidate { mesh, edge: Some(edge) }
        } else {
            Candidate { mesh: self, edge: None }
        }
    }

    /// Whether the right candidate is joined rather than the left one: it
    /// is the only one, or its end lies inside the circle through the
    /// left candidate's ends and the right candidate's start.
    pub open spec fn prefers_right(self, left: Option<QuadEdge>, right: Option<QuadEdge>) -> bool {
        match (left, right) {
            (None, _) => true,
            (Some(_), None) => false,
            (Some(left_edge), Some(right_edge)) => is_inside_circle(
                self.end(left_edge),
                self.start(left_edge),
                self.start(right_edge),
                self.end(right_edge),
            ),
        }
    }

    /// The mesh after the halves were sewn together from the base edge
    /// upwards, by at most `steps` edges.
    pub open spec fn sewn(self, base_edge: QuadEdge, steps: nat) -> Self
        decreases steps,
    {
        if steps == 0 {
            self
        } else {
            let left = self.left_candidate(base_edge);
            let right = left.mesh.right_candidate(base_edge);
            let mesh = right.mesh;
            if left.edge is None && right.edge is None {
                mesh
            } else if mesh.prefers_right(left.edge, right.edge) {
                mesh.connect_edges(right.edge->0, opposite(base_edge)).sewn(
                    mesh.left_from_start.len() as usize,
                    (steps - 1) as nat,
                )
            } else {
                mesh.connect_edges(opposite(base_edge), opposite(left.edge->0)).sewn(
                    mesh.left_from_start.len() as usize,
                    (steps - 1) as nat,
                )
            }
        }
    }

    /// The mesh of two halves and its sides: the halves are joined along
    /// their lower common tangent and sewn together from there upwards.
    pub open spec fn merged(
        self,
        left_side: QuadEdge,
        inner_left: QuadEdge,
        inner_right: QuadEdge,
        right_side: QuadEdge,
    ) -> Sides {
        let (left_edge, right_edge) = self.lower_tangent(
            inner_left,
            inner_right,
            self.left_from_start.len(),
        );
        let base_edge = self.left_from_start.len() as usize;
        let joined = self.connect_edges(opposite(right_edge), left_edge);
        Sides {
            mesh: joined.sewn(base_edge, (usize::MAX - joined.left_from_start.len() + 1) as nat),
            left_side: if self.start_index(left_edge) == self.start_index(left_side) {
                opposite(base_edge)
            } else {
                left_side
            },
            right_side: if self.start_index(right_edge) == self.start_index(right_side) {
                base_edge
            } else {
                right_side
            },
        }
    }

    /// The Delaunay triangulation of the endpoints from `start` up to
    /// `end`, which are at least two, added to the mesh.
    pub open spec fn triangulated(self, start: usize, end: usize) -> Sides
        decreases end - start,
    {
        if end - start <= 2 {
            self.with_segment(start)
        } else if end - start == 3 {
            self.with_triangle(start, (start + 1) as usize, (start + 2) as usize)
        } else {
            let middle = (start + (end - start) / 2) as usize;
            let left = self.triangulated(start, middle);
            let right = left.mesh.triangulated(middle, end);
            right.mesh.merged(left.left_side, left.right_side, right.left_side, right.right_side)
        }
    }
}

impl QuadEdgeRegistryView {
    /// Whether the face to the left of `edge` is a triangle that runs
    /// counterclockwise and has the start of `edge` as its least vertex.
    pub open spec fn is_triangle_edge(self, edge: QuadEdge) -> bool {
        let second_edge = self.left_from_end_of(edge);
        let third_edge = self.left_from_end_of(second_edge);
        &&& self.left_from_end_of(third_edge) == edge
        &&& point_lt(self.start(edge), self.start(second_edge))
        &&& point_lt(self.start(edge), self.start(third_edge))
        &&& orientation_of(self.start(edge), self.start(second_edge), self.start(third_edge))
            == Orientation::Counterclockwise
    }

    /// The vertices of the face to the left of `edge`, if it is a
    /// triangle, from the start of `edge` on.
    pub open spec fn triangle_vertices(self, edge: QuadEdge) -> Seq<PointView> {
        let second_edge = self.left_from_end_of(edge);
        let third_edge = self.left_from_end_of(second_edge);
        seq![self.start(edge), self.start(second_edge), self.start(third_edge)]
    }

    /// The triangles to the left of the first `count` directed edges, each
    /// once, counterclockwise from its least vertex.
    pub open spec fn triangles(self, count: int) -> Seq<Seq<PointView>>
        decreases count,
    {
        if count <= 0 {
            Seq::empty()
        } else {
            let edge = (count - 1) as usize;
            let earlier = self.triangles(count - 1);
            if is_primal(edge) && self.is_triangle_edge(edge) {
                earlier.push(self.triangle_vertices(edge))
            } else {
                earlier
            }
        }
    }

    /// The starts of the edges met by walking from `edge` along the face
    /// to its right until `start_edge` would come next, for at most
    /// `steps` more edges.
    pub open spec fn boundary(self, start_edge: QuadEdge, edge: QuadEdge, steps: nat) -> Seq<
        PointView,
    >
        decreases steps,
    {
        let next_edge = self.right_from_end_of(edge);
        if steps == 0 || next_edge == start_edge {
            seq![self.start(edge)]
        } else {
            seq![self.start(edge)] + self.boundary(start_edge, next_edge, (steps - 1) as nat)
        }
    }
}

impl QuadEdgeRegistryView {
    /// Each triangle listed has three endpoints of the mesh as its
    /// vertices, in counterclockwise order from the least one.
    #[verifier::rlimit(40)]
    pub proof fn lemma_triangles(self, count: int)
        requires
            self.wf(),
            0 <= count <= self.left_from_start.len(),
        ensures
            forall|index: int|
                0 <= index < self.triangles(count).len() ==> {
                    let triangle = #[trigger] self.triangles(count)[index];
                    &&& triangle.len() == 3
                    &&& self.endpoints.contains(triangle[0])
                    &&& self.endpoints.contains(triangle[1])
                    &&& self.endpoints.contains(triangle[2])
                    &&& point_lt(triangle[0], triangle[1])
                    &&& point_lt(triangle[0], triangle[2])
                    &&& orientation_of(triangle[0], triangle[1], triangle[2])
                        == Orientation::Counterclockwise
                },
        decreases count,
    {
        if count > 0 {
            self.lemma_triangles(count - 1);
            let edge = (count - 1) as usize;
            if is_primal(edge) && self.is_triangle_edge(edge) {
                let second_edge = self.left_from_end_of(edge);
                let third_edge = self.left_from_end_of(second_edge);
                self.lemma_navigation(edge);
                self.lemma_navigation(second_edge);
                let vertices = self.triangle_vertices(edge);
                assert(self.endpoints[self.starts_indices[edge as int] as int] == vertices[0]);
                assert(self.endpoints[self.starts_indices[second_edge as int] as int]
                    == vertices[1]);
                assert(self.endpoints[self.starts_indices[third_edge as int] as int]
                    == vertices[2]);
            }
        }
    }
}

impl QuadEdgeRegistryView {
    /// Each point met by walking along a face is an endpoint of the mesh.
    pub proof fn lemma_boundary(self, start_edge: QuadEdge, edge: QuadEdge, steps: nat)
        requires
            self.wf(),
            self.is_primal_edge(edge),
        ensures
            forall|index: int|
                0 <= index < self.boundary(start_edge, edge, steps).len()
                    ==> self.endpoints.contains(
                    #[trigger] self.boundary(start_edge, edge, steps)[index],
                ),
        decreases steps,
    {
        let walked = self.boundary(start_edge, edge, steps);
        let next_edge = self.right_from_end_of(edge);
        self.lemma_navigation(edge);
        assert(self.endpoints[self.starts_indices[edge as int] as int] == self.start(edge));
        if steps == 0 || next_edge == start_edge {
            assert(walked[0] == self.start(edge));
        } else {
            self.lemma_boundary(start_edge, next_edge, (steps - 1) as nat);
            let rest = self.boundary(start_edge, next_edge, (steps - 1) as nat);
            assert forall|index: int| 0 <= index < walked.len() implies self.endpoints.contains(
                #[trigger] walked[index],
            ) by {
                if index == 0 {
                    assert(walked[0] == self.start(edge));
                } else {
                    assert(walked[index] == rest[index - 1]);
                }
            }
        }
    }
}

/// A quad-edge mesh over endpoints sorted in increasing order.
pub struct Mesh {
    registry: QuadEdgeRegistry,
}

impl View for Mesh {
    type V = QuadEdgeRegistryView;

    closed spec fn view(&self) -> QuadEdgeRegistryView {
        self.registry@
    }
}

impl Mesh {
    /// A mesh with these endpoints and no edge.
    pub fn from(endpoints: Vec<Point>) -> (result: Self)
        ensures
            result@ == (QuadEdgeRegistryView {
                endpoints: endpoints.deep_view(),
                left_from_start: Seq::empty(),
                starts_indices: Seq::empty(),
            }),
            result@.wf(),
    {
        Self { registry: QuadEdgeRegistry::from(endpoints) }
    }

    pub fn get_endpoints(&self) -> (result: &Vec<Point>)
        ensures
            result.deep_view() == self@.endpoints,
    {
        self.registry.get_endpoints()
    }

    /// Whether the mesh has no edge.
    pub fn is_empty(&self) -> (result: bool)
        ensures
            result == (self@.left_from_start.len() == 0),
    {
        self.registry.edges_count() == 0
    }

    /// The number of directed edges, four for each edge created.
    pub fn edges_count(&self) -> (result: usize)
        ensures
            result == self@.left_from_start.len(),
    {
        self.registry.edges_count()
    }

    pub fn get_start(&self, edge: QuadEdge) -> (result: &Point)
        requires
            self@.wf(),
            self@.is_primal_edge(edge),
        ensures
            result@ == self@.start(edge),
    {
        self.registry.get_start(edge)
    }

    pub fn get_end(&self, edge: QuadEdge) -> (result: &Point)
        requires
            self@.wf(),
            self@.is_primal_edge(edge),
        ensures
            result@ == self@.end(edge),
    {
        self.registry.get_end(edge)
    }

    pub fn to_left_from_start(&self, edge: QuadEdge) -> (result: QuadEdge)
        requires
            self@.wf(),
            self@.is_edge(edge),
        ensures
            result == self@.left_from_start_of(edge),
            self@.is_edge(result),
            is_primal(result) == is_primal(edge),
    {
        self.registry.to_left_from_start(edge)
    }

    pub fn to_left_from_end(&self, edge: QuadEdge) -> (result: QuadEdge)
        requires
            self@.wf(),
            self@.is_edge(edge),
        ensures
            result == self@.left_from_end_of(edge),
            self@.is_edge(result),
            is_primal(result) == is_primal(edge),
    {
        self.registry.to_left_from_end(edge)
    }

    pub fn to_right_from_end(&self, edge: QuadEdge) -> (result: QuadEdge)
        requires
            self@.wf(),
            self@.is_edge(edge),
        ensures
            result == self@.right_from_end_of(edge),
            self@.is_edge(result),
            is_primal(result) == is_primal(edge),
    {
        self.registry.to_right_from_end(edge)
    }

    pub fn to_right_from_start(&self, edge: QuadEdge) -> (result: QuadEdge)
        requires
            self@.wf(),
            self@.is_edge(edge),
        ensures
            result == self@.right_from_start_of(edge),
            self@.is_edge(result),
            is_primal(result) == is_primal(edge),
    {
        self.registry.to_right_from_start(edge)
    }

    /// On which side of the directed `edge` the `point` lies.
    pub fn orient_point_to_edge(&self, edge: QuadEdge, point: &Point) -> (result: Orientation)
        requires
            self@.wf(),
            self@.is_primal_edge(edge),
        ensures
            result == self@.point_to_edge_orientation(edge, point@),
    {
        orient(self.registry.get_start(edge), self.registry.get_end(edge), point)
    }

    /// Adds the edge from an endpoint to the next.
    fn create_segment(&mut self, start_index: usize) -> (result: (QuadEdge, QuadEdge))
        requires
            old(self)@.wf(),
            start_index + 1 < old(self)@.endpoints.len(),
        ensures
            (Sides { mesh: final(self)@, left_side: result.0, right_side: result.1 }) == old(self)@.with_segment(start_index),
            final(self)@.wf(),
            final(self)@.is_primal_edge(result.0),
            final(self)@.is_primal_edge(result.1),
            final(self)@.endpoints == old(self)@.endpoints,
            final(self)@.left_from_start.len() >= old(self)@.left_from_start.len(),
    {
        let edge = self.registry.create_edge(start_index, start_index + 1);
        proof {
            lemma_rotations(edge);
            self@.lemma_quad_closed(edge);
        }
        (edge, to_opposite_edge(edge))
    }

    /// Adds the chain through three endpoints in increasing order, closed
    /// to a triangle unless they lie on a line.
    #[verifier::rlimit(40)]
    fn create_triangle(&mut self, left_index: usize, mid_index: usize, right_index: usize) -> (result:
        (QuadEdge, QuadEdge))
        requires
            old(self)@.wf(),
            left_index < old(self)@.endpoints.len(),
            mid_index < old(self)@.endpoints.len(),
            right_index < old(self)@.endpoints.len(),
        ensures
            (Sides { mesh: final(self)@, left_side: result.0, right_side: result.1 }) == old(self)@.with_triangle(left_index, mid_index, right_index),
            final(self)@.wf(),
            final(self)@.is_primal_edge(result.0),
            final(self)@.is_primal_edge(result.1),
            final(self)@.endpoints == old(self)@.endpoints,
            final(self)@.left_from_start.len() >= old(self)@.left_from_start.len(),
    {
        let first_edge = self.registry.create_edge(left_index, mid_index);
        let second_edge = self.registry.create_edge(mid_index, right_index);
        proof {
            lemma_rotations(first_edge);
            lemma_rotations(second_edge);
            self@.lemma_quad_closed(first_edge);
            self@.lemma_quad_closed(second_edge);
        }
        self.registry.splice_edges(to_opposite_edge(first_edge), second_edge);
        let orientation = orient(
            &self.registry.get_endpoints()[left_index],
            &self.registry.get_endpoints()[mid_index],
            &self.registry.get_endpoints()[right_index],
        );
        match orientation {
            Orientation::Counterclockwise => {
                self.registry.connect_edges(second_edge, first_edge);
                (first_edge, to_opposite_edge(second_edge))
            },
            Orientation::Clockwise => {
                let third_edge = self.registry.connect_edges(second_edge, first_edge);
                proof {
                    lemma_rotations(third_edge);
                    self@.lemma_quad_closed(third_edge);
                }
                (to_opposite_edge(third_edge), third_edge)
            },
            Orientation::Collinear => (first_edge, to_opposite_edge(second_edge)),
        }
    }
}

impl Mesh {
    /// Walks down the sides of two halves that face each other to the
    /// edges from whose starts their lower common tangent runs.
    #[verifier::rlimit(40)]
    fn find_lower_tangent(&self, left_edge: QuadEdge, right_edge: QuadEdge) -> (result: (
        QuadEdge,
        QuadEdge,
    ))
        requires
            self@.wf(),
            self@.is_primal_edge(left_edge),
            self@.is_primal_edge(right_edge),
        ensures
            result == self@.lower_tangent(left_edge, right_edge, self@.left_from_start.len()),
            self@.is_primal_edge(result.0),
            self@.is_primal_edge(result.1),
    {
        let mut left = left_edge;
        let mut right = right_edge;
        let mut budget = self.registry.edges_count();
        loop
            invariant
                self@.wf(),
                self@.is_primal_edge(left),
                self@.is_primal_edge(right),
                self@.lower_tangent(left, right, budget as nat) == self@.lower_tangent(
                    left_edge,
                    right_edge,
                    self@.left_from_start.len(),
                ),
            decreases budget,
        {
            if budget == 0 {
                return (left, right);
            }
            if self.orient_point_to_edge(left, self.registry.get_start(right))
                == Orientation::Counterclockwise {
                left = self.registry.to_left_from_end(left);
            } else if self.orient_point_to_edge(right, self.registry.get_start(left))
                == Orientation::Clockwise {
                right = self.registry.to_right_from_end(right);
            } else {
                return (left, right);
            }
            budget -= 1;
        }
    }

    /// Whether the end of `edge` lies above the base edge.
    fn is_edge_above(&self, base_edge: QuadEdge, edge: QuadEdge) -> (result: bool)
        requires
            self@.wf(),
            self@.is_primal_edge(base_edge),
            self@.is_primal_edge(edge),
        ensures
            result == self@.is_above(base_edge, edge),
    {
        self.orient_point_to_edge(base_edge, self.registry.get_end(edge)) == Orientation::Clockwise
    }

    /// Whether `candidate` has to give way to `next_candidate`.
    fn does_give_way(&self, base_edge: QuadEdge, candidate: QuadEdge, next_candidate: QuadEdge) -> (result:
        bool)
        requires
            self@.wf(),
            self@.is_primal_edge(base_edge),
            self@.is_primal_edge(candidate),
            self@.is_primal_edge(next_candidate),
        ensures
            result == self@.gives_way(base_edge, candidate, next_candidate),
    {
        self.is_edge_above(base_edge, next_candidate) && is_point_inside_circle(
            self.registry.get_end(base_edge),
            self.registry.get_start(base_edge),
            self.registry.get_end(candidate),
            self.registry.get_end(next_candidate),
        )
    }

    /// The edge of the left half to be joined with the base edge next, if
    /// there is one; edges that give way to it are deleted.
    #[verifier::rlimit(40)]
    fn to_left_candidate(&mut self, base_edge: QuadEdge) -> (result: Option<QuadEdge>)
        requires
            old(self)@.wf(),
            old(self)@.is_primal_edge(base_edge),
        ensures
            (Candidate { mesh: final(self)@, edge: result }) == old(self)@.left_candidate(
                base_edge,
            ),
            final(self)@.wf(),
            final(self)@.endpoints == old(self)@.endpoints,
            final(self)@.starts_indices == old(self)@.starts_indices,
            final(self)@.left_from_start.len() == old(self)@.left_from_start.len(),
            result is Some ==> final(self)@.is_primal_edge(result->0),
    {
        proof {
            lemma_rotations(base_edge);
            self@.lemma_quad_closed(base_edge);
        }
        let first = self.registry.to_left_from_start(to_opposite_edge(base_edge));
        if !self.is_edge_above(base_edge, first) {
            return None;
        }
        let mut candidate = first;
        let mut budget = self.registry.edges_count();
        loop
            invariant
                self@.wf(),
                self@.is_primal_edge(base_edge),
                self@.is_primal_edge(candidate),
                self@.endpoints == old(self)@.endpoints,
                self@.starts_indices == old(self)@.starts_indices,
                self@.left_from_start.len() == old(self)@.left_from_start.len(),
                first == old(self)@.left_from_start_of(opposite(base_edge)),
                old(self)@.is_above(base_edge, first),
                self@.pruned_left(base_edge, candidate, budget as nat) == old(self)@.pruned_left(
                    base_edge,
                    first,
                    old(self)@.left_from_start.len(),
                ),
            decreases budget,
        {
            let next_candidate = self.registry.to_left_from_start(candidate);
            if budget == 0 || !self.does_give_way(base_edge, candidate, next_candidate) {
                return Some(candidate);
            }
            self.registry.delete_edge(candidate);
            candidate = next_candidate;
            budget -= 1;
        }
    }

    /// The edge of the right half to be joined with the base edge next,
    /// if there is one; edges that give way to it are deleted.
    #[verifier::rlimit(40)]
    fn to_right_candidate(&mut self, base_edge: QuadEdge) -> (result: Option<QuadEdge>)
        requires
            old(self)@.wf(),
            old(self)@.is_primal_edge(base_edge),
        ensures
            (Candidate { mesh: final(self)@, edge: result }) == old(self)@.right_candidate(
                base_edge,
            ),
            final(self)@.wf(),
            final(self)@.endpoints == old(self)@.endpoints,
            final(self)@.starts_indices == old(self)@.starts_indices,
            final(self)@.left_from_start.len() == old(self)@.left_from_start.len(),
            result is Some ==> final(self)@.is_primal_edge(result->0),
    {
        let first = self.registry.to_right_from_start(base_edge);
        if !self.is_edge_above(base_edge, first) {
            return None;
        }
        let mut candidate = first;
        let mut budget = self.registry.edges_count();
        loop
            invariant
                self@.wf(),
                self@.is_primal_edge(base_edge),
                self@.is_primal_edge(candidate),
                self@.endpoints == old(self)@.endpoints,
                self@.starts_indices == old(self)@.starts_indices,
                self@.left_from_start.len() == old(self)@.left_from_start.len(),
                first == old(self)@.right_from_start_of(base_edge),
                old(self)@.is_above(base_edge, first),
                self@.pruned_right(base_edge, candidate, budget as nat) == old(self)@.pruned_right(
                    base_edge,
                    first,
                    old(self)@.left_from_start.len(),
                ),
            decreases budget,
        {
            let next_candidate = self.registry.to_right_from_start(candidate);
            if budget == 0 || !self.does_give_way(base_edge, candidate, next_candidate) {
                return Some(candidate);
            }
            self.registry.delete_edge(candidate);
            candidate = next_candidate;
            budget -= 1;
        }
    }

    /// Whether the right candidate is joined rather than the left one.
    fn does_prefer_right(&self, left: Option<QuadEdge>, right: Option<QuadEdge>) -> (result: bool)
        requires
            self@.wf(),
            left is Some ==> self@.is_primal_edge(left->0),
            right is Some ==> self@.is_primal_edge(right->0),
        ensures
            result == self@.prefers_right(left, right),
    {
        match (left, right) {
            (None, _) => true,
            (Some(_), None) => false,
            (Some(left_edge), Some(right_edge)) => is_point_inside_circle(
                self.registry.get_end(left_edge),
                self.registry.get_start(left_edge),
                self.registry.get_start(right_edge),
                self.registry.get_end(right_edge),
            ),
        }
    }

    /// Sews two halves together from the base edge upwards.
    #[verifier::rlimit(40)]
    fn sew(&mut self, base_edge: QuadEdge)
        requires
            old(self)@.wf(),
            old(self)@.is_primal_edge(base_edge),
        ensures
            final(self)@ == old(self)@.sewn(
                base_edge,
                (usize::MAX - old(self)@.left_from_start.len() + 1) as nat,
            ),
            final(self)@.wf(),
            final(self)@.endpoints == old(self)@.endpoints,
            final(self)@.left_from_start.len() >= old(self)@.left_from_start.len(),
    {
        let mut base = base_edge;
        let ghost mut steps: nat = (usize::MAX - self@.left_from_start.len() + 1) as nat;
        loop
            invariant
                self@.wf(),
                self@.is_primal_edge(base),
                self@.endpoints == old(self)@.endpoints,
                self@.left_from_start.len() >= old(self)@.left_from_start.len(),
                steps >= usize::MAX - self@.left_from_start.len() + 1,
                self@.sewn(base, steps) == old(self)@.sewn(
                    base_edge,
                    (usize::MAX - old(self)@.left_from_start.len() + 1) as nat,
                ),
            decreases usize::MAX - self@.left_from_start.len(),
        {
            let left_candidate = self.to_left_candidate(base);
            let right_candidate = self.to_right_candidate(base);
            proof {
                lemma_rotations(base);
                self@.lemma_quad_closed(base);
                if left_candidate is Some {
                    lemma_rotations(left_candidate->0);
                    self@.lemma_quad_closed(left_candidate->0);
                }
            }
            if left_candidate.is_none() && right_candidate.is_none() {
                return ;
            }
            base = if self.does_prefer_right(left_candidate, right_candidate) {
                self.registry.connect_edges(right_candidate.unwrap(), to_opposite_edge(base))
            } else {
                self.registry.connect_edges(
                    to_opposite_edge(base),
                    to_opposite_edge(left_candidate.unwrap()),
                )
            };
            proof {
                steps = (steps - 1) as nat;
            }
        }
    }

    /// Joins two halves along their lower common tangent and sews them
    /// together from there upwards.
    #[verifier::rlimit(40)]
    fn merge(
        &mut self,
        left_side: QuadEdge,
        inner_left: QuadEdge,
        inner_right: QuadEdge,
        right_side: QuadEdge,
    ) -> (result: (QuadEdge, QuadEdge))
        requires
            old(self)@.wf(),
            old(self)@.is_primal_edge(left_side),
            old(self)@.is_primal_edge(inner_left),
            old(self)@.is_primal_edge(inner_right),
            old(self)@.is_primal_edge(right_side),
        ensures
            (Sides { mesh: final(self)@, left_side: result.0, right_side: result.1 }) == old(self)@.merged(left_side, inner_left, inner_right, right_side),
            final(self)@.wf(),
            final(self)@.is_primal_edge(result.0),
            final(self)@.is_primal_edge(result.1),
            final(self)@.endpoints == old(self)@.endpoints,
            final(self)@.left_from_start.len() >= old(self)@.left_from_start.len(),
    {
        let (left_edge, right_edge) = self.find_lower_tangent(inner_left, inner_right);
        let joins_left_side = self.registry.to_start_index(left_edge)
            == self.registry.to_start_index(left_side);
        let joins_right_side = self.registry.to_start_index(right_edge)
            == self.registry.to_start_index(right_side);
        proof {
            lemma_rotations(right_edge);
            self@.lemma_quad_closed(right_edge);
        }
        let base_edge = self.registry.connect_edges(to_opposite_edge(right_edge), left_edge);
        proof {
            lemma_rotations(base_edge);
            self@.lemma_quad_closed(base_edge);
        }
        self.sew(base_edge);
        (
            if joins_left_side {
                to_opposite_edge(base_edge)
            } else {
                left_side
            },
            if joins_right_side {
                base_edge
            } else {
                right_side
            },
        )
    }

    /// Triangulates the endpoints from `start` up to `end`.
    #[verifier::rlimit(40)]
    fn build_delaunay_triangulation(&mut self, start: usize, end: usize) -> (result: (
        QuadEdge,
        QuadEdge,
    ))
        requires
            old(self)@.wf(),
            start + 2 <= end <= old(self)@.endpoints.len(),
        ensures
            (Sides { mesh: final(self)@, left_side: result.0, right_side: result.1 }) == old(self)@.triangulated(start, end),
            final(self)@.wf(),
            final(self)@.is_primal_edge(result.0),
            final(self)@.is_primal_edge(result.1),
            final(self)@.endpoints == old(self)@.endpoints,
            final(self)@.left_from_start.len() >= old(self)@.left_from_start.len(),
        decreases end - start,
    {
        if end - start == 2 {
            self.create_segment(start)
        } else if end - start == 3 {
            self.create_triangle(start, start + 1, start + 2)
        } else {
            let middle = start + (end - start) / 2;
            let (left_side, inner_left) = self.build_delaunay_triangulation(start, middle);
            let (inner_right, right_side) = self.build_delaunay_triangulation(middle, end);
            self.merge(left_side, inner_left, inner_right, right_side)
        }
    }

    /// Triangulates the endpoints, which have to be in increasing order
    /// without repetition, and returns the edges out of the leftmost and
    /// into the rightmost endpoint that have the unbounded face on their
    /// right and left; with fewer than two endpoints there is no edge.
    pub fn delaunay_triangulation(&mut self) -> (result: (QuadEdge, QuadEdge))
        requires
            old(self)@.wf(),
        ensures
            old(self)@.endpoints.len() < 2 ==> final(self)@ == old(self)@ && result == (
                UNDEFINED_QUAD_EDGE,
                UNDEFINED_QUAD_EDGE,
            ),
            old(self)@.endpoints.len() >= 2 ==> (Sides {
                mesh: final(self)@,
                left_side: result.0,
                right_side: result.1,
            }) == old(self)@.triangulated(0, old(self)@.endpoints.len() as usize)
                && final(self)@.is_primal_edge(result.0) && final(self)@.is_primal_edge(result.1),
            final(self)@.wf(),
            final(self)@.endpoints == old(self)@.endpoints,
    {
        let endpoints_count = self.registry.get_endpoints().len();
        if endpoints_count < 2 {
            (UNDEFINED_QUAD_EDGE, UNDEFINED_QUAD_EDGE)
        } else {
            self.build_delaunay_triangulation(0, endpoints_count)
        }
    }
}

impl Mesh {
    /// Whether the face to the left of `edge` is a counterclockwise
    /// triangle with the start of `edge` as its least vertex.
    fn is_edge_of_triangle(&self, edge: QuadEdge) -> (result: bool)
        requires
            self@.wf(),
            self@.is_primal_edge(edge),
        ensures
            result == self@.is_triangle_edge(edge),
    {
        let second_edge = self.registry.to_left_from_end(edge);
        let third_edge = self.registry.to_left_from_end(second_edge);
        let first_vertex = self.registry.get_start(edge);
        let second_vertex = self.registry.get_start(second_edge);
        let third_vertex = self.registry.get_start(third_edge);
        self.registry.to_left_from_end(third_edge) == edge && first_vertex.less_than(second_vertex)
            && first_vertex.less_than(third_vertex) && orient(
            first_vertex,
            second_vertex,
            third_vertex,
        ) == Orientation::Counterclockwise
    }

    /// The vertices of the face to the left of `edge`, taken as a
    /// triangle.
    fn to_triangle_vertices(&self, edge: QuadEdge) -> (result: [Point; 3])
        requires
            self@.wf(),
            self@.is_primal_edge(edge),
        ensures
            result.deep_view() == self@.triangle_vertices(edge),
    {
        let second_edge = self.registry.to_left_from_end(edge);
        let third_edge = self.registry.to_left_from_end(second_edge);
        let result = [
            self.registry.get_start(edge).clone(),
            self.registry.get_start(second_edge).clone(),
            self.registry.get_start(third_edge).clone(),
        ];
        proof {
            assert(result.deep_view() =~= self@.triangle_vertices(edge));
        }
        result
    }

    /// The triangles of the mesh, each as its vertices counterclockwise
    /// from the least one.
    #[verifier::rlimit(40)]
    pub fn to_triangles_vertices(&self) -> (result: Vec<[Point; 3]>)
        requires
            self@.wf(),
        ensures
            result.deep_view() == self@.triangles(self@.left_from_start.len() as int),
            forall|index: int|
                0 <= index < result.len() ==> {
                    let triangle = #[trigger] result.deep_view()[index];
                    &&& self@.endpoints.contains(triangle[0])
                    &&& self@.endpoints.contains(triangle[1])
                    &&& self@.endpoints.contains(triangle[2])
                    &&& orientation_of(triangle[0], triangle[1], triangle[2])
                        == Orientation::Counterclockwise
                },
    {
        proof {
            self@.lemma_triangles(self@.left_from_start.len() as int);
        }
        let mut result: Vec<[Point; 3]> = Vec::new();
        let mut edge: usize = 0;
        while edge < self.registry.edges_count()
            invariant
                self@.wf(),
                edge <= self@.left_from_start.len(),
                result.deep_view() == self@.triangles(edge as int),
            decreases self@.left_from_start.len() - edge,
        {
            if edge % 2 == 0 && self.is_edge_of_triangle(edge) {
                let ghost earlier = result.deep_view();
                let triangle = self.to_triangle_vertices(edge);
                result.push(triangle);
                proof {
                    assert(result.deep_view() =~= earlier.push(self@.triangle_vertices(edge)));
                }
            }
            edge += 1;
        }
        result
    }

    /// The starts of the edges around the face to the right of `edge`,
    /// from `edge` on.
    #[verifier::rlimit(40)]
    pub fn to_boundary(&self, edge: QuadEdge) -> (result: Vec<Point>)
        requires
            self@.wf(),
            self@.is_primal_edge(edge),
        ensures
            result.deep_view() == self@.boundary(edge, edge, self@.left_from_start.len()),
            result.len() > 0,
            forall|index: int|
                0 <= index < result.len() ==> self@.endpoints.contains(
                    #[trigger] result.deep_view()[index],
                ),
    {
        let mut result: Vec<Point> = Vec::new();
        let mut current = edge;
        let mut budget = self.registry.edges_count();
        loop
            invariant
                self@.wf(),
                self@.is_primal_edge(edge),
                self@.is_primal_edge(current),
                result.deep_view() + self@.boundary(edge, current, budget as nat)
                    == self@.boundary(edge, edge, self@.left_from_start.len()),
            decreases budget,
        {
            let ghost walked = result.deep_view();
            result.push(self.registry.get_start(current).clone());
            let candidate = self.registry.to_right_from_end(current);
            proof {
                assert(result.deep_view() =~= walked.push(self@.start(current)));
            }
            if budget == 0 || candidate == edge {
                proof {
                    assert(walked + seq![self@.start(current)] =~= walked.push(
                        self@.start(current),
                    ));
                    self@.lemma_boundary(edge, edge, self@.left_from_start.len());
                }
                return result;
            }
            proof {
                let rest = self@.boundary(edge, candidate, (budget - 1) as nat);
                assert(walked.push(self@.start(current)) + rest =~= walked + (seq![
                    self@.start(current),
                ] + rest));
            }
            current = candidate;
            budget -= 1;
        }
    }
}

} // verus!
