//! Store of the directed edges of a quad-edge mesh.

use crate::delaunay::quad_edge::{
    is_primal,
    lemma_quad_fits,
    lemma_rotations,
    opposite,
    rotated,
    to_opposite_edge,
    to_rotated_edge,
    QuadEdge,
};
use crate::geometries::{Point, PointView};
use vstd::prelude::*;

verus! {

/// Start index of a dual edge, which starts at no endpoint.
pub const UNDEFINED_INDEX: usize = usize::MAX;

/// Mathematical state of a quad-edge registry.
pub struct QuadEdgeRegistryView {
    pub endpoints: Seq<PointView>,
    /// For each directed edge, the next edge counterclockwise around its
    /// start.
    pub left_from_start: Seq<QuadEdge>,
    /// For each edge between endpoints, the index of the endpoint that it
    /// starts at.
    pub starts_indices: Seq<usize>,
}

impl QuadEdgeRegistryView {
    pub open spec fn is_edge(self, edge: QuadEdge) -> bool {
        edge < self.left_from_start.len()
    }

    pub open spec fn is_primal_edge(self, edge: QuadEdge) -> bool {
        self.is_edge(edge) && is_primal(edge)
    }

    /// Edges come in quads; the next edge around a start is an edge of the
    /// same kind, and no two edges share it, so that following it from an
    /// edge goes round a ring; edges between endpoints start at one.
    pub open spec fn wf(self) -> bool {
        &&& self.left_from_start.len() == self.starts_indices.len()
        &&& self.left_from_start.len() % 4 == 0
        &&& self.left_from_start.len() <= usize::MAX
        &&& self.endpoints.len() <= usize::MAX
        &&& forall|edge: int|
            0 <= edge < self.left_from_start.len() ==> {
                &&& (#[trigger] self.left_from_start[edge]) < self.left_from_start.len()
                &&& is_primal(self.left_from_start[edge]) == is_primal(edge as usize)
            }
        &&& forall|first: int, second: int|
            0 <= first < self.left_from_start.len() && 0 <= second < self.left_from_start.len()
                && #[trigger] self.left_from_start[first] == #[trigger] self.left_from_start[second]
                ==> first == second
        &&& forall|edge: int|
            0 <= edge < self.starts_indices.len() ==> if is_primal(edge as usize) {
                (#[trigger] self.starts_indices[edge]) < self.endpoints.len()
            } else {
                self.starts_indices[edge] == UNDEFINED_INDEX
            }
    }

    pub open spec fn start_index(self, edge: QuadEdge) -> usize {
        self.starts_indices[edge as int]
    }

    pub open spec fn end_index(self, edge: QuadEdge) -> usize {
        self.starts_indices[opposite(edge) as int]
    }

    pub open spec fn start(self, edge: QuadEdge) -> PointView {
        self.endpoints[self.start_index(edge) as int]
    }

    pub open spec fn end(self, edge: QuadEdge) -> PointView {
        self.endpoints[self.end_index(edge) as int]
    }

    /// The next edge counterclockwise around the start of `edge`.
    pub open spec fn left_from_start_of(self, edge: QuadEdge) -> QuadEdge {
        self.left_from_start[edge as int]
    }

    /// The next edge counterclockwise around the face to the left of
    /// `edge`: it starts at the end of `edge`.
    pub open spec fn left_from_end_of(self, edge: QuadEdge) -> QuadEdge {
        rotated(self.left_from_start[opposite(rotated(edge)) as int])
    }

    /// The next edge counterclockwise around the end of `edge`, taken from
    /// the reverse of `edge`: it starts at the end of `edge`.
    pub open spec fn right_from_end_of(self, edge: QuadEdge) -> QuadEdge {
        self.left_from_start[opposite(edge) as int]
    }

    /// The next edge clockwise around the start of `edge`.
    pub open spec fn right_from_start_of(self, edge: QuadEdge) -> QuadEdge {
        rotated(self.left_from_start[rotated(edge) as int])
    }

    /// A new quad from `start_index` to `end_index`, joined to nothing:
    /// the edge and its reverse are alone around their starts, and the two
    /// duals follow each other.
    pub open spec fn create_edge(self, start_index: usize, end_index: usize) -> Self {
        let edge = self.left_from_start.len() as usize;
        QuadEdgeRegistryView {
            starts_indices: self.starts_indices.push(start_index).push(UNDEFINED_INDEX).push(
                end_index,
            ).push(UNDEFINED_INDEX),
            left_from_start: self.left_from_start.push(edge).push((edge + 3) as usize).push(
                (edge + 2) as usize,
            ).push((edge + 1) as usize),
            ..self
        }
    }

    /// `table` with the entries at `first` and `second` exchanged.
    pub open spec fn exchanged(table: Seq<QuadEdge>, first: QuadEdge, second: QuadEdge) -> Seq<
        QuadEdge,
    > {
        table.update(first as int, table[second as int]).update(second as int, table[first as int])
    }

    /// Exchanges the next edges of `first` and `second`, and those of the
    /// duals that follow them: rings around one start part, rings around two
    /// starts join.
    #[verifier::opaque]
    pub open spec fn splice_edges(self, first: QuadEdge, second: QuadEdge) -> Self {
        let alpha = rotated(self.left_from_start[first as int]);
        let beta = rotated(self.left_from_start[second as int]);
        QuadEdgeRegistryView {
            left_from_start: Self::exchanged(
                Self::exchanged(self.left_from_start, first, second),
                alpha,
                beta,
            ),
            ..self
        }
    }

    /// A new edge from the end of `first` to the start of `second`, put
    /// into the rings so that the three bound one face.
    #[verifier::opaque]
    pub open spec fn connect_edges(self, first: QuadEdge, second: QuadEdge) -> Self {
        let edge = self.left_from_start.len() as usize;
        let created = self.create_edge(self.end_index(first), self.start_index(second));
        created.splice_edges(edge, created.left_from_end_of(first)).splice_edges(
            opposite(edge),
            second,
        )
    }

    /// Takes `edge` out of the rings around both of its ends.
    #[verifier::opaque]
    pub open spec fn delete_edge(self, edge: QuadEdge) -> Self {
        let spliced = self.splice_edges(edge, self.right_from_start_of(edge));
        spliced.splice_edges(opposite(edge), spliced.right_from_start_of(opposite(edge)))
    }

    /// Rotating and reversing stay among the edges.
    pub proof fn lemma_quad_closed(self, edge: QuadEdge)
        requires
            self.wf(),
            self.is_edge(edge),
        ensures
            self.is_edge(rotated(edge)),
            self.is_edge(opposite(edge)),
    {
        lemma_quad_fits(edge);
    }

    /// Walking from an edge stays among the edges and keeps or exchanges
    /// the kind as rotations do.
    pub proof fn lemma_navigation(self, edge: QuadEdge)
        requires
            self.wf(),
            self.is_edge(edge),
        ensures
            self.is_edge(self.left_from_start_of(edge)),
            self.is_edge(self.left_from_end_of(edge)),
            self.is_edge(self.right_from_end_of(edge)),
            self.is_edge(self.right_from_start_of(edge)),
            is_primal(self.left_from_start_of(edge)) == is_primal(edge),
            is_primal(self.left_from_end_of(edge)) == is_primal(edge),
            is_primal(self.right_from_end_of(edge)) == is_primal(edge),
            is_primal(self.right_from_start_of(edge)) == is_primal(edge),
    {
        lemma_rotations(edge);
        lemma_rotations(rotated(edge));
        self.lemma_quad_closed(edge);
        self.lemma_quad_closed(rotated(edge));
        let around_dual = self.left_from_start[rotated(edge) as int];
        let around_back_dual = self.left_from_start[opposite(rotated(edge)) as int];
        let around_back = self.left_from_start[opposite(edge) as int];
        lemma_rotations(around_dual);
        lemma_rotations(around_back_dual);
        self.lemma_quad_closed(around_dual);
        self.lemma_quad_closed(around_back_dual);
    }

    #[verifier::rlimit(40)]
    pub proof fn lemma_create_edge_wf(self, start_index: usize, end_index: usize)
        requires
            self.wf(),
            start_index < self.endpoints.len(),
            end_index < self.endpoints.len(),
            self.left_from_start.len() + 4 <= usize::MAX,
        ensures
            self.create_edge(start_index, end_index).wf(),
            self.create_edge(start_index, end_index).is_primal_edge(
                self.left_from_start.len() as usize,
            ),
    {
        let created = self.create_edge(start_index, end_index);
        let edge = self.left_from_start.len() as int;
        assert forall|other: int| 0 <= other < created.left_from_start.len() implies {
            &&& (#[trigger] created.left_from_start[other]) < created.left_from_start.len()
            &&& is_primal(created.left_from_start[other]) == is_primal(other as usize)
        } by {
            if other < edge {
                assert(created.left_from_start[other] == self.left_from_start[other]);
            }
        }
        assert forall|first: int, second: int|
            0 <= first < created.left_from_start.len() && 0 <= second
                < created.left_from_start.len() && #[trigger] created.left_from_start[first]
                == #[trigger] created.left_from_start[second] implies first == second by {
            if first < edge {
                assert(created.left_from_start[first] == self.left_from_start[first]);
            }
            if second < edge {
                assert(created.left_from_start[second] == self.left_from_start[second]);
            }
        }
        assert forall|other: int| 0 <= other < created.starts_indices.len() implies if is_primal(
            other as usize,
        ) {
            (#[trigger] created.starts_indices[other]) < created.endpoints.len()
        } else {
            created.starts_indices[other] == UNDEFINED_INDEX
        } by {
            if other < edge {
                assert(created.starts_indices[other] == self.starts_indices[other]);
            }
        }
    }

    /// Exchanging the next edges of two edges of one kind keeps the
    /// rings' table well formed.
    #[verifier::rlimit(40)]
    pub proof fn lemma_exchanged_wf(self, first: QuadEdge, second: QuadEdge)
        requires
            self.wf(),
            self.is_edge(first),
            self.is_edge(second),
            is_primal(first) == is_primal(second),
        ensures
            (QuadEdgeRegistryView {
                left_from_start: Self::exchanged(self.left_from_start, first, second),
                ..self
            }).wf(),
    {
        let table = Self::exchanged(self.left_from_start, first, second);
        assert forall|left: int, right: int|
            0 <= left < table.len() && 0 <= right < table.len() && #[trigger] table[left]
                == #[trigger] table[right] implies left == right by {
            let left_source = if left == first {
                second as int
            } else if left == second {
                first as int
            } else {
                left
            };
            let right_source = if right == first {
                second as int
            } else if right == second {
                first as int
            } else {
                right
            };
            assert(table[left] == self.left_from_start[left_source]);
            assert(table[right] == self.left_from_start[right_source]);
        }
        assert forall|edge: int| 0 <= edge < table.len() implies {
            &&& (#[trigger] table[edge]) < table.len()
            &&& is_primal(table[edge]) == is_primal(edge as usize)
        } by {
            let source = if edge == first {
                second as int
            } else if edge == second {
                first as int
            } else {
                edge
            };
            assert(table[edge] == self.left_from_start[source]);
        }
    }

    #[verifier::rlimit(40)]
    pub proof fn lemma_splice_edges_wf(self, first: QuadEdge, second: QuadEdge)
        requires
            self.wf(),
            self.is_edge(first),
            self.is_edge(second),
            is_primal(first) == is_primal(second),
        ensures
            self.splice_edges(first, second).wf(),
            self.splice_edges(first, second).left_from_start.len() == self.left_from_start.len(),
            self.splice_edges(first, second).starts_indices == self.starts_indices,
            self.splice_edges(first, second).endpoints == self.endpoints,
    {
        reveal(QuadEdgeRegistryView::splice_edges);
        let alpha = rotated(self.left_from_start[first as int]);
        let beta = rotated(self.left_from_start[second as int]);
        lemma_rotations(self.left_from_start[first as int]);
        lemma_rotations(self.left_from_start[second as int]);
        self.lemma_quad_closed(self.left_from_start[first as int]);
        self.lemma_quad_closed(self.left_from_start[second as int]);
        self.lemma_exchanged_wf(first, second);
        let once = QuadEdgeRegistryView {
            left_from_start: Self::exchanged(self.left_from_start, first, second),
            ..self
        };
        once.lemma_exchanged_wf(alpha, beta);
    }
}

impl QuadEdgeRegistryView {
    /// The edge reached from `edge` by taking the next edge around the
    /// start `count` times.
    pub open spec fn turned(self, edge: QuadEdge, count: nat) -> QuadEdge
        decreases count,
    {
        if count == 0 {
            edge
        } else {
            self.left_from_start[self.turned(edge, (count - 1) as nat) as int]
        }
    }

    /// Turning stays among the edges.
    pub proof fn lemma_turned_is_edge(self, edge: QuadEdge, count: nat)
        requires
            self.wf(),
            self.is_edge(edge),
        ensures
            self.is_edge(self.turned(edge, count)),
            is_primal(self.turned(edge, count)) == is_primal(edge),
        decreases count,
    {
        if count > 0 {
            self.lemma_turned_is_edge(edge, (count - 1) as nat);
        }
    }

    /// Two turns that end at one edge have started to agree as many turns
    /// earlier as the shorter one is long.
    proof fn lemma_turned_back(self, edge: QuadEdge, first: nat, second: nat)
        requires
            self.wf(),
            self.is_edge(edge),
            first < second,
            self.turned(edge, first) == self.turned(edge, second),
        ensures
            self.turned(edge, (second - first) as nat) == edge,
        decreases first,
    {
        if first > 0 {
            self.lemma_turned_is_edge(edge, (first - 1) as nat);
            self.lemma_turned_is_edge(edge, (second - 1) as nat);
            let before_first = self.turned(edge, (first - 1) as nat);
            let before_second = self.turned(edge, (second - 1) as nat);
            assert(self.left_from_start[before_first as int] == self.left_from_start[before_second as int]);
            self.lemma_turned_back(edge, (first - 1) as nat, (second - 1) as nat);
        }
    }

    /// The edges around a start form a ring: turning from an edge comes
    /// back to it, after no more turns than there are edges.
    #[verifier::rlimit(40)]
    pub proof fn lemma_ring_closes(self, edge: QuadEdge)
        requires
            self.wf(),
            self.is_edge(edge),
        ensures
            exists|count: nat|
                1 <= count <= self.left_from_start.len() && self.turned(edge, count) == edge,
    {
        let edges_count = self.left_from_start.len();
        let walk = Seq::new(edges_count + 1, |index: int| self.turned(edge, index as nat) as int);
        assert forall|index: int| 0 <= index < walk.len() implies 0 <= #[trigger] walk[index]
            < edges_count by {
            self.lemma_turned_is_edge(edge, index as nat);
        }
        if walk.no_duplicates() {
            walk.unique_seq_to_set();
            vstd::set_lib::lemma_int_range(0, edges_count as int);
            assert(walk.to_set().subset_of(vstd::set_lib::set_int_range(0, edges_count as int)))
                by {
                assert forall|value: int| walk.to_set().contains(value) implies 0 <= value
                    < edges_count by {
                    let index = choose|index: int| 0 <= index < walk.len() && walk[index] == value;
                    assert(0 <= walk[index] < edges_count);
                }
            }
            vstd::set_lib::lemma_len_subset(
                walk.to_set(),
                vstd::set_lib::set_int_range(0, edges_count as int),
            );
            assert(false);
        }
        let (first, second) = choose|first: int, second: int|
            0 <= first < walk.len() && 0 <= second < walk.len() && first != second && walk[first]
                == walk[second];
        let (earlier, later) = if first < second {
            (first, second)
        } else {
            (second, first)
        };
        assert(walk[earlier] == self.turned(edge, earlier as nat));
        assert(walk[later] == self.turned(edge, later as nat));
        self.lemma_turned_back(edge, earlier as nat, later as nat);
        assert(1 <= (later - earlier) as nat <= edges_count);
    }
}

/// The directed edges of a mesh over a fixed sequence of endpoints.
pub struct QuadEdgeRegistry {
    endpoints: Vec<Point>,
    left_from_start: Vec<QuadEdge>,
    starts_indices: Vec<usize>,
}

impl View for QuadEdgeRegistry {
    type V = QuadEdgeRegistryView;

    closed spec fn view(&self) -> QuadEdgeRegistryView {
        QuadEdgeRegistryView {
            endpoints: self.endpoints.deep_view(),
            left_from_start: self.left_from_start@,
            starts_indices: self.starts_indices@,
        }
    }
}

impl QuadEdgeRegistry {
    /// A registry with these endpoints and no edge.
    pub fn from(endpoints: Vec<Point>) -> (result: Self)
        ensures
            result@ == (QuadEdgeRegistryView {
                endpoints: endpoints.deep_view(),
                left_from_start: Seq::empty(),
                starts_indices: Seq::empty(),
            }),
            result@.wf(),
    {
        assert(endpoints.deep_view().len() == endpoints.len());
        Self { endpoints, left_from_start: Vec::new(), starts_indices: Vec::new() }
    }

    pub fn get_endpoints(&self) -> (result: &Vec<Point>)
        ensures
            result.deep_view() == self@.endpoints,
    {
        &self.endpoints
    }

    /// The number of directed edges, four for each edge created.
    pub fn edges_count(&self) -> (result: usize)
        ensures
            result == self@.left_from_start.len(),
    {
        self.left_from_start.len()
    }

    pub fn get_start(&self, edge: QuadEdge) -> (result: &Point)
        requires
            self@.wf(),
            self@.is_primal_edge(edge),
        ensures
            result@ == self@.start(edge),
    {
        &self.endpoints[self.to_start_index(edge)]
    }

    pub fn get_end(&self, edge: QuadEdge) -> (result: &Point)
        requires
            self@.wf(),
            self@.is_primal_edge(edge),
        ensures
            result@ == self@.end(edge),
    {
        &self.endpoints[self.to_end_index(edge)]
    }

    pub fn to_left_from_start(&self, edge: QuadEdge) -> (result: QuadEdge)
        requires
            self@.wf(),
            self@.is_edge(edge),
        ensures
            result == self@.left_from_start_of(edge),
            self@.is_edge(result),
            is_primal(result) == is_primal(edge),
    {
        self.left_from_start[edge]
    }

    pub fn to_left_from_end(&self, edge: QuadEdge) -> (result: QuadEdge)
        requires
            self@.wf(),
            self@.is_edge(edge),
        ensures
            result == self@.left_from_end_of(edge),
            self@.is_edge(result),
            is_primal(result) == is_primal(edge),
    {
        proof {
            self@.lemma_navigation(edge);
            self@.lemma_quad_closed(edge);
            self@.lemma_quad_closed(rotated(edge));
        }
        to_rotated_edge(self.to_left_from_start(to_opposite_edge(to_rotated_edge(edge))))
    }

    pub fn to_right_from_end(&self, edge: QuadEdge) -> (result: QuadEdge)
        requires
            self@.wf(),
            self@.is_edge(edge),
        ensures
            result == self@.right_from_end_of(edge),
            self@.is_edge(result),
            is_primal(result) == is_primal(edge),
    {
        proof {
            self@.lemma_navigation(edge);
            self@.lemma_quad_closed(edge);
        }
        self.to_left_from_start(to_opposite_edge(edge))
    }

    pub fn to_right_from_start(&self, edge: QuadEdge) -> (result: QuadEdge)
        requires
            self@.wf(),
            self@.is_edge(edge),
        ensures
            result == self@.right_from_start_of(edge),
            self@.is_edge(result),
            is_primal(result) == is_primal(edge),
    {
        proof {
            self@.lemma_navigation(edge);
            self@.lemma_quad_closed(edge);
        }
        to_rotated_edge(self.to_left_from_start(to_rotated_edge(edge)))
    }

    pub fn to_end_index(&self, edge: QuadEdge) -> (result: usize)
        requires
            self@.wf(),
            self@.is_primal_edge(edge),
        ensures
            result == self@.end_index(edge),
            result < self@.endpoints.len(),
    {
        proof {
            lemma_rotations(edge);
            self@.lemma_quad_closed(edge);
        }
        self.starts_indices[to_opposite_edge(edge)]
    }

    pub fn to_start_index(&self, edge: QuadEdge) -> (result: usize)
        requires
            self@.wf(),
            self@.is_primal_edge(edge),
        ensures
            result == self@.start_index(edge),
            result < self@.endpoints.len(),
    {
        self.starts_indices[edge]
    }

    /// Adds an edge from the end of `first` to the start of `second`, so
    /// that the three bound one face on their left.
    #[verifier::rlimit(40)]
    pub fn connect_edges(&mut self, first: QuadEdge, second: QuadEdge) -> (result: QuadEdge)
        requires
            old(self)@.wf(),
            old(self)@.is_primal_edge(first),
            old(self)@.is_primal_edge(second),
        ensures
            final(self)@ == old(self)@.connect_edges(first, second),
            final(self)@.wf(),
            result == old(self)@.left_from_start.len(),
            final(self)@.is_primal_edge(result),
            final(self)@.left_from_start.len() == old(self)@.left_from_start.len() + 4,
            final(self)@.endpoints == old(self)@.endpoints,
    {
        proof {
            reveal(QuadEdgeRegistryView::connect_edges);
        }
        let result = self.create_edge(self.to_end_index(first), self.to_start_index(second));
        self.splice_edges(result, self.to_left_from_end(first));
        proof {
            lemma_rotations(result);
            self@.lemma_quad_closed(result);
        }
        self.splice_edges(to_opposite_edge(result), second);
        result
    }

    /// Adds an edge that is joined to nothing.
    #[verifier::rlimit(40)]
    pub fn create_edge(&mut self, start_index: usize, end_index: usize) -> (result: QuadEdge)
        requires
            old(self)@.wf(),
            start_index < old(self)@.endpoints.len(),
            end_index < old(self)@.endpoints.len(),
        ensures
            final(self)@ == old(self)@.create_edge(start_index, end_index),
            final(self)@.wf(),
            result == old(self)@.left_from_start.len(),
            result % 4 == 0,
            rotated(result) == result + 1,
            opposite(result) == result + 2,
            rotated(opposite(result)) == result + 3,
            rotated((result + 3) as usize) == result,
            final(self)@.is_primal_edge(result),
            final(self)@.left_from_start.len() == old(self)@.left_from_start.len() + 4,
            final(self)@.endpoints == old(self)@.endpoints,
    {
        self.starts_indices.push(start_index);
        self.starts_indices.push(UNDEFINED_INDEX);
        self.starts_indices.push(end_index);
        self.starts_indices.push(UNDEFINED_INDEX);
        let edge = self.left_from_start.len();
        let rotated_edge = edge + 1;
        let opposite_edge = edge + 2;
        let triple_rotated_edge = edge + 3;
        self.left_from_start.push(edge);
        self.left_from_start.push(triple_rotated_edge);
        self.left_from_start.push(opposite_edge);
        self.left_from_start.push(rotated_edge);
        proof {
            assert(self.left_from_start.len() == old(self)@.left_from_start.len() + 4);
            old(self)@.lemma_create_edge_wf(start_index, end_index);
            assert(self@.left_from_start =~= old(self)@.create_edge(
                start_index,
                end_index,
            ).left_from_start);
            assert(self@.starts_indices =~= old(self)@.create_edge(
                start_index,
                end_index,
            ).starts_indices);
        }
        edge
    }

    /// Takes an edge out of the rings around both of its ends.
    #[verifier::rlimit(40)]
    pub fn delete_edge(&mut self, edge: QuadEdge)
        requires
            old(self)@.wf(),
            old(self)@.is_edge(edge),
        ensures
            final(self)@ == old(self)@.delete_edge(edge),
            final(self)@.wf(),
            final(self)@.left_from_start.len() == old(self)@.left_from_start.len(),
            final(self)@.starts_indices == old(self)@.starts_indices,
            final(self)@.endpoints == old(self)@.endpoints,
    {
        proof {
            reveal(QuadEdgeRegistryView::delete_edge);
        }
        self.splice_edges(edge, self.to_right_from_start(edge));
        proof {
            lemma_rotations(edge);
            self@.lemma_quad_closed(edge);
        }
        let opposite_edge = to_opposite_edge(edge);
        self.splice_edges(opposite_edge, self.to_right_from_start(opposite_edge));
    }

    /// Exchanges the next edges of two edges of one kind, and those of the
    /// duals that follow them.
    #[verifier::rlimit(40)]
    pub fn splice_edges(&mut self, first: QuadEdge, second: QuadEdge)
        requires
            old(self)@.wf(),
            old(self)@.is_edge(first),
            old(self)@.is_edge(second),
            is_primal(first) == is_primal(second),
        ensures
            final(self)@ == old(self)@.splice_edges(first, second),
            final(self)@.wf(),
            final(self)@.left_from_start.len() == old(self)@.left_from_start.len(),
            final(self)@.starts_indices == old(self)@.starts_indices,
            final(self)@.endpoints == old(self)@.endpoints,
    {
        proof {
            reveal(QuadEdgeRegistryView::splice_edges);
            self@.lemma_splice_edges_wf(first, second);
            lemma_rotations(self@.left_from_start[first as int]);
            lemma_rotations(self@.left_from_start[second as int]);
            self@.lemma_quad_closed(self@.left_from_start[first as int]);
            self@.lemma_quad_closed(self@.left_from_start[second as int]);
        }
        let alpha = to_rotated_edge(self.to_left_from_start(first));
        let beta = to_rotated_edge(self.to_left_from_start(second));
        let around_first = self.left_from_start[first];
        let around_second = self.left_from_start[second];
        self.left_from_start.set(first, around_second);
        self.left_from_start.set(second, around_first);
        let around_alpha = self.left_from_start[alpha];
        let around_beta = self.left_from_start[beta];
        self.left_from_start.set(alpha, around_beta);
        self.left_from_start.set(beta, around_alpha);
    }
}

} // verus!
