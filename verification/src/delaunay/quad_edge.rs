//! Directed edges of a quad-edge mesh: each undirected edge owns four
//! consecutive indices, the edge itself, its dual, its reverse and the
//! dual's reverse.

use vstd::prelude::*;

verus! {

/// Index of a directed edge.
pub type QuadEdge = usize;

/// Stands for "no edge".
pub const UNDEFINED_QUAD_EDGE: QuadEdge = usize::MAX;

/// The next of the four edges of the same quad, cyclically.
pub open spec fn rotated(edge: QuadEdge) -> QuadEdge {
    if edge % 4 == 3 {
        (edge - 3) as usize
    } else {
        (edge + 1) as usize
    }
}

/// The reverse of an edge: the second next of its quad, cyclically.
pub open spec fn opposite(edge: QuadEdge) -> QuadEdge {
    if edge % 4 >= 2 {
        (edge - 2) as usize
    } else {
        (edge + 2) as usize
    }
}

/// Edges between endpoints are the even ones; the odd ones are duals.
pub open spec fn is_primal(edge: QuadEdge) -> bool {
    edge % 2 == 0
}

/// The largest index lies last in its quad.
pub proof fn lemma_quad_fits(edge: QuadEdge)
    ensures
        edge - edge % 4 + 3 <= usize::MAX,
{
    assert(usize::BITS == 32 || usize::BITS == 64);
    assert(usize::MAX == 0xffff_ffff || usize::MAX == 0xffff_ffff_ffff_ffff);
}

/// Reversing twice gives the edge back, and so do four rotations.
pub proof fn lemma_rotations_close(edge: QuadEdge)
    ensures
        opposite(opposite(edge)) == edge,
        rotated(rotated(rotated(rotated(edge)))) == edge,
{
    lemma_quad_fits(edge);
}

/// Two rotations reverse; rotating exchanges edges and duals, reversing
/// keeps the kind; both stay in the quad and move the edge.
pub proof fn lemma_rotations(edge: QuadEdge)
    ensures
        rotated(rotated(edge)) == opposite(edge),
        is_primal(opposite(edge)) == is_primal(edge),
        is_primal(rotated(edge)) != is_primal(edge),
        opposite(edge) / 4 == edge / 4,
        rotated(edge) / 4 == edge / 4,
        opposite(edge) != edge,
        rotated(edge) != edge,
{
    lemma_quad_fits(edge);
}

pub fn to_rotated_edge(edge: QuadEdge) -> (result: QuadEdge)
    ensures
        result == rotated(edge),
{
    proof {
        lemma_quad_fits(edge);
    }
    if edge % 4 == 3 {
        edge - 3
    } else {
        edge + 1
    }
}

pub fn to_opposite_edge(edge: QuadEdge) -> (result: QuadEdge)
    ensures
        result == opposite(edge),
{
    proof {
        lemma_quad_fits(edge);
    }
    if edge % 4 >= 2 {
        edge - 2
    } else {
        edge + 2
    }
}

} // verus!
