//! Points on lines and on segments.

use crate::geometries::{point_lt, PointView};
use crate::operations::{cross_product, lemma_endpoints_collinear, orientation_of};
use crate::oriented::Orientation;
use crate::reals::{lemma_parallel_to_common, lemma_product_of_difference, lemma_product_of_three};
use vstd::prelude::*;

verus! {

/// `point` lies on the line through `start` and `end`, neither before
/// `start` nor after `end`.
pub open spec fn lies_on(start: PointView, end: PointView, point: PointView) -> bool {
    &&& orientation_of(start, end, point) == Orientation::Collinear
    &&& !point_lt(point, start)
    &&& !point_lt(end, point)
}

/// The endpoints of a segment lie on it.
pub proof fn lemma_endpoints_lie_on(start: PointView, end: PointView)
    requires
        !point_lt(end, start),
    ensures
        lies_on(start, end, start),
        lies_on(start, end, end),
{
    lemma_endpoints_collinear(start, end);
}

/// A point on the line through two different points of a line lies on
/// that line.
#[verifier::rlimit(40)]
pub proof fn lemma_collinear_through(
    start: PointView,
    end: PointView,
    first: PointView,
    second: PointView,
    point: PointView,
)
    requires
        orientation_of(start, end, first) == Orientation::Collinear,
        orientation_of(start, end, second) == Orientation::Collinear,
        first != second,
        orientation_of(first, second, point) == Orientation::Collinear,
    ensures
        orientation_of(start, end, point) == Orientation::Collinear,
{
    let dx = end.x - start.x;
    let dy = end.y - start.y;
    let vx = second.x - first.x;
    let vy = second.y - first.y;
    let wx = point.x - first.x;
    let wy = point.y - first.y;
    assert(dx * (first.y - start.y) - dy * (first.x - start.x) == 0real);
    assert(dx * (second.y - start.y) - dy * (second.x - start.x) == 0real);
    assert(vx * wy - vy * wx == 0real);
    lemma_product_of_difference(dx, first.y, start.y);
    lemma_product_of_difference(dy, first.x, start.x);
    lemma_product_of_difference(dx, second.y, start.y);
    lemma_product_of_difference(dy, second.x, start.x);
    lemma_product_of_difference(dx, second.y, first.y);
    lemma_product_of_difference(dy, second.x, first.x);
    lemma_product_of_difference(dx, point.y, start.y);
    lemma_product_of_difference(dy, point.x, start.x);
    lemma_product_of_difference(dx, point.y, first.y);
    lemma_product_of_difference(dy, point.x, first.x);
    assert(dx * vy - dy * vx == 0real);
    lemma_product_of_three(dx, vy, 1real);
    lemma_product_of_three(dy, vx, 1real);
    assert(vx * dy - vy * dx == 0real);
    lemma_parallel_to_common(vx, vy, dx, dy, wx, wy);
    assert(dx * wy - dy * wx == 0real);
    assert(cross_product(start, end, start, point) == dx * (point.y - start.y) - dy * (point.x
        - start.x));
}

/// A line through two points of a line goes through every point of that
/// line.
#[verifier::rlimit(40)]
pub proof fn lemma_line_through_points_on(
    start: PointView,
    end: PointView,
    first: PointView,
    second: PointView,
    point: PointView,
)
    requires
        start != end,
        orientation_of(start, end, first) == Orientation::Collinear,
        orientation_of(start, end, second) == Orientation::Collinear,
        orientation_of(start, end, point) == Orientation::Collinear,
    ensures
        orientation_of(first, second, point) == Orientation::Collinear,
{
    let vx = end.x - start.x;
    let vy = end.y - start.y;
    let ux = second.x - first.x;
    let uy = second.y - first.y;
    let wx = point.x - first.x;
    let wy = point.y - first.y;
    // both differences are parallel to the line
    lemma_product_of_difference(vx, first.y, start.y);
    lemma_product_of_difference(vy, first.x, start.x);
    lemma_product_of_difference(vx, second.y, start.y);
    lemma_product_of_difference(vy, second.x, start.x);
    lemma_product_of_difference(vx, point.y, start.y);
    lemma_product_of_difference(vy, point.x, start.x);
    lemma_product_of_difference(vx, second.y, first.y);
    lemma_product_of_difference(vy, second.x, first.x);
    lemma_product_of_difference(vx, point.y, first.y);
    lemma_product_of_difference(vy, point.x, first.x);
    assert(vx * (first.y - start.y) - vy * (first.x - start.x) == 0real);
    assert(vx * (second.y - start.y) - vy * (second.x - start.x) == 0real);
    assert(vx * (point.y - start.y) - vy * (point.x - start.x) == 0real);
    assert(vx * uy - vy * ux == 0real);
    assert(vx * wy - vy * wx == 0real);
    lemma_parallel_to_common(vx, vy, ux, uy, wx, wy);
    assert(cross_product(first, second, first, point) == ux * wy - uy * wx);
}

/// A point on a part of a segment lies on the segment.
pub proof fn lemma_part_of_part(
    start: PointView,
    end: PointView,
    first: PointView,
    second: PointView,
    point: PointView,
)
    requires
        lies_on(start, end, first),
        lies_on(start, end, second),
        lies_on(first, second, point),
    ensures
        lies_on(start, end, point),
{
    if first != second {
        lemma_collinear_through(start, end, first, second, point);
    } else {
        assert(point.x == first.x && point.y == first.y);
        assert(point == first);
    }
}

/// Two segments that are no single points, with both ends of the second
/// on the line of the first, lie on one line: each end of either lies on
/// the line of the other.
pub proof fn lemma_lines_coincide(
    first_start: PointView,
    first_end: PointView,
    second_start: PointView,
    second_end: PointView,
)
    requires
        point_lt(first_start, first_end),
        orientation_of(first_start, first_end, second_start) == Orientation::Collinear,
        orientation_of(first_start, first_end, second_end) == Orientation::Collinear,
    ensures
        orientation_of(second_start, second_end, first_start) == Orientation::Collinear,
        orientation_of(second_start, second_end, first_end) == Orientation::Collinear,
{
    lemma_endpoints_lie_on(first_start, first_end);
    lemma_line_through_points_on(first_start, first_end, second_start, second_end, first_start);
    lemma_line_through_points_on(first_start, first_end, second_start, second_end, first_end);
}

/// Both ends of the second segment lie on the line of the first.
pub open spec fn is_on_line_of(
    first_start: PointView,
    first_end: PointView,
    second_start: PointView,
    second_end: PointView,
) -> bool {
    &&& orientation_of(first_start, first_end, second_start) == Orientation::Collinear
    &&& orientation_of(first_start, first_end, second_end) == Orientation::Collinear
}

/// A segment on the line of a segment on the line of a third one lies on
/// the line of the third one.
pub proof fn lemma_on_line_of_line(
    first_start: PointView,
    first_end: PointView,
    second_start: PointView,
    second_end: PointView,
    third_start: PointView,
    third_end: PointView,
)
    requires
        second_start != second_end,
        is_on_line_of(first_start, first_end, second_start, second_end),
        is_on_line_of(second_start, second_end, third_start, third_end),
    ensures
        is_on_line_of(first_start, first_end, third_start, third_end),
{
    lemma_collinear_through(first_start, first_end, second_start, second_end, third_start);
    lemma_collinear_through(first_start, first_end, second_start, second_end, third_end);
}

/// Two segments with two different points on the lines of both lie on
/// one line.
pub proof fn lemma_lines_share_points(
    first_start: PointView,
    first_end: PointView,
    second_start: PointView,
    second_end: PointView,
    start: PointView,
    end: PointView,
)
    requires
        start != end,
        second_start != second_end,
        is_on_line_of(first_start, first_end, start, end),
        is_on_line_of(second_start, second_end, start, end),
    ensures
        is_on_line_of(first_start, first_end, second_start, second_end),
{
    lemma_endpoints_collinear(second_start, second_end);
    lemma_line_through_points_on(second_start, second_end, start, end, second_start);
    lemma_line_through_points_on(second_start, second_end, start, end, second_end);
    lemma_collinear_through(first_start, first_end, start, end, second_start);
    lemma_collinear_through(first_start, first_end, start, end, second_end);
}

} // verus!
