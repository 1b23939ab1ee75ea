//! Exact predicates and constructions on points.

use crate::fraction::{sign_of, Fraction, Sign};
use crate::geometries::{point_lt, Point, PointView};
use crate::oriented::Orientation;
use crate::reals::{
    lemma_determinants_solve,
    lemma_product_of_difference,
    lemma_product_of_three,
    lemma_quotient,
    lemma_share_of_length,
    lemma_share_of_zero,
};
use vstd::prelude::*;

verus! {

/// Cross product of the vectors `first_start -> first_end` and
/// `second_start -> second_end`.
pub open spec fn cross_product(
    first_start: PointView,
    first_end: PointView,
    second_start: PointView,
    second_end: PointView,
) -> real {
    (first_end.x - first_start.x) * (second_end.y - second_start.y) - (first_end.y
        - first_start.y) * (second_end.x - second_start.x)
}

/// The orientation that a sign of a cross product stands for.
pub open spec fn orientation_of_sign(sign: Sign) -> Orientation {
    match sign {
        Sign::Negative => Orientation::Clockwise,
        Sign::Positive => Orientation::Counterclockwise,
        Sign::Zero => Orientation::Collinear,
    }
}

/// The turn made by going from `start` through `end` to `point`.
pub open spec fn orientation_of(start: PointView, end: PointView, point: PointView) -> Orientation {
    orientation_of_sign(sign_of(cross_product(start, end, start, point)))
}

/// Both points lie strictly off the line through `start` and `end`, on
/// opposite sides of it.
pub open spec fn strictly_separates(
    start: PointView,
    end: PointView,
    first: PointView,
    second: PointView,
) -> bool {
    &&& orientation_of(start, end, first) != Orientation::Collinear
    &&& orientation_of(start, end, second) != Orientation::Collinear
    &&& orientation_of(start, end, first) != orientation_of(start, end, second)
}

/// The segments meet in a single point interior to both.
pub open spec fn segments_cross(
    first_start: PointView,
    first_end: PointView,
    second_start: PointView,
    second_end: PointView,
) -> bool {
    &&& strictly_separates(first_start, first_end, second_start, second_end)
    &&& strictly_separates(second_start, second_end, first_start, first_end)
}

/// The fraction of the first segment at which the second one's line meets it.
pub open spec fn intersection_scale(
    first_start: PointView,
    first_end: PointView,
    second_start: PointView,
    second_end: PointView,
) -> real {
    cross_product(first_start, second_start, second_start, second_end) / cross_product(
        first_start,
        first_end,
        second_start,
        second_end,
    )
}

/// The point of the first segment's line at the intersection scale.
pub open spec fn crossing_point(
    first_start: PointView,
    first_end: PointView,
    second_start: PointView,
    second_end: PointView,
) -> PointView {
    let scale = intersection_scale(first_start, first_end, second_start, second_end);
    PointView {
        x: first_start.x + (first_end.x - first_start.x) * scale,
        y: first_start.y + (first_end.y - first_start.y) * scale,
    }
}

/// The smaller of two points first.
pub open spec fn sorted_pair(first: PointView, second: PointView) -> (PointView, PointView) {
    if point_lt(second, first) {
        (second, first)
    } else {
        (first, second)
    }
}

/// The direction vectors of two segments are not parallel when one segment
/// has the other's endpoints strictly on opposite sides.
pub proof fn lemma_separated_not_parallel(
    first_start: PointView,
    first_end: PointView,
    second_start: PointView,
    second_end: PointView,
)
    requires
        strictly_separates(first_start, first_end, second_start, second_end),
    ensures
        cross_product(first_start, first_end, second_start, second_end) != 0real,
{
    let dx = first_end.x - first_start.x;
    let dy = first_end.y - first_start.y;
    let at_start = cross_product(first_start, first_end, first_start, second_start);
    let at_end = cross_product(first_start, first_end, first_start, second_end);
    assert(cross_product(first_start, first_end, second_start, second_end) == at_end - at_start)
        by (nonlinear_arith)
        requires
            dx == first_end.x - first_start.x,
            dy == first_end.y - first_start.y,
            at_start == dx * (second_start.y - first_start.y) - dy * (second_start.x
                - first_start.x),
            at_end == dx * (second_end.y - first_start.y) - dy * (second_end.x - first_start.x),
            cross_product(first_start, first_end, second_start, second_end) == dx * (second_end.y
                - second_start.y) - dy * (second_end.x - second_start.x),
    ;
}

/// Both ends of a segment lie on its line.
pub proof fn lemma_endpoints_collinear(start: PointView, end: PointView)
    ensures
        orientation_of(start, end, start) == Orientation::Collinear,
        orientation_of(start, end, end) == Orientation::Collinear,
{
    lemma_product_of_three(end.x - start.x, end.y - start.y, 1real);
}

/// Walking a line the other way exchanges its two sides.
pub proof fn lemma_orientation_of_reversed(start: PointView, end: PointView, point: PointView)
    ensures
        orientation_of(end, start, point) == match orientation_of(start, end, point) {
            Orientation::Clockwise => Orientation::Counterclockwise,
            Orientation::Collinear => Orientation::Collinear,
            Orientation::Counterclockwise => Orientation::Clockwise,
        },
{
    assert(cross_product(end, start, end, point) == -cross_product(start, end, start, point))
        by (nonlinear_arith)
        requires
            cross_product(end, start, end, point) == (start.x - end.x) * (point.y - end.y) - (
            start.y - end.y) * (point.x - end.x),
            cross_product(start, end, start, point) == (end.x - start.x) * (point.y - start.y) - (
            end.y - start.y) * (point.x - start.x),
    ;
}

/// The crossing point lies on the lines of both segments, which have
/// no other point in common.
#[verifier::rlimit(40)]
pub proof fn lemma_crossing_point_on_lines(
    first_start: PointView,
    first_end: PointView,
    second_start: PointView,
    second_end: PointView,
)
    requires
        cross_product(first_start, first_end, second_start, second_end) != 0real,
    ensures
        orientation_of(
            first_start,
            first_end,
            crossing_point(first_start, first_end, second_start, second_end),
        ) == Orientation::Collinear,
        orientation_of(
            second_start,
            second_end,
            crossing_point(first_start, first_end, second_start, second_end),
        ) == Orientation::Collinear,
{
    let point = crossing_point(first_start, first_end, second_start, second_end);
    let dx = first_end.x - first_start.x;
    let dy = first_end.y - first_start.y;
    let ex = second_end.x - second_start.x;
    let ey = second_end.y - second_start.y;
    let gx = second_start.x - first_start.x;
    let gy = second_start.y - first_start.y;
    let determinant = dx * ey - dy * ex;
    let first_numerator = gx * ey - gy * ex;
    let second_numerator = gx * dy - gy * dx;
    let first_share = first_numerator / determinant;
    let second_share = second_numerator / determinant;
    assert(determinant == cross_product(first_start, first_end, second_start, second_end));
    assert(first_share == intersection_scale(first_start, first_end, second_start, second_end));
    lemma_quotient(first_numerator, determinant);
    lemma_quotient(second_numerator, determinant);
    lemma_determinants_solve(dx, dy, ex, ey, gx, gy, first_share, second_share);
    assert(point.x - first_start.x == dx * first_share);
    assert(point.y - first_start.y == dy * first_share);
    assert(point.x - second_start.x == ex * second_share);
    assert(point.y - second_start.y == ey * second_share);
    lemma_product_of_three(dx, dy, first_share);
    lemma_product_of_three(ex, ey, second_share);
    assert(cross_product(first_start, first_end, first_start, point) == dx * (dy * first_share)
        - dy * (dx * first_share));
    assert(cross_product(second_start, second_end, second_start, point) == ex * (ey
        * second_share) - ey * (ex * second_share));
}

/// The point of a segment at a share strictly between zero and one lies
/// strictly between its endpoints.
pub proof fn lemma_inner_point_between(start: PointView, end: PointView, share: real)
    requires
        point_lt(start, end),
        0real < share < 1real,
    ensures
        point_lt(
            start,
            PointView {
                x: start.x + (end.x - start.x) * share,
                y: start.y + (end.y - start.y) * share,
            },
        ),
        point_lt(
            PointView {
                x: start.x + (end.x - start.x) * share,
                y: start.y + (end.y - start.y) * share,
            },
            end,
        ),
{
    if start.x < end.x {
        lemma_share_of_length(end.x - start.x, share);
    } else {
        lemma_product_of_difference(share, end.x, start.x);
        assert((end.x - start.x) * share == 0real);
        lemma_share_of_length(end.y - start.y, share);
    }
}

/// The point at which two segments cross lies strictly between the
/// endpoints of each of them.
#[verifier::rlimit(40)]
pub proof fn lemma_crossing_point_between(
    first_start: PointView,
    first_end: PointView,
    second_start: PointView,
    second_end: PointView,
)
    requires
        segments_cross(first_start, first_end, second_start, second_end),
        point_lt(first_start, first_end),
        point_lt(second_start, second_end),
    ensures
        point_lt(
            first_start,
            crossing_point(first_start, first_end, second_start, second_end),
        ),
        point_lt(crossing_point(first_start, first_end, second_start, second_end), first_end),
        point_lt(
            second_start,
            crossing_point(first_start, first_end, second_start, second_end),
        ),
        point_lt(crossing_point(first_start, first_end, second_start, second_end), second_end),
{
    let point = crossing_point(first_start, first_end, second_start, second_end);
    let dx = first_end.x - first_start.x;
    let dy = first_end.y - first_start.y;
    let ex = second_end.x - second_start.x;
    let ey = second_end.y - second_start.y;
    let gx = second_start.x - first_start.x;
    let gy = second_start.y - first_start.y;
    let determinant = dx * ey - dy * ex;
    let first_numerator = gx * ey - gy * ex;
    let second_numerator = gx * dy - gy * dx;
    let first_share = first_numerator / determinant;
    let second_share = second_numerator / determinant;
    lemma_separated_not_parallel(first_start, first_end, second_start, second_end);
    assert(determinant == cross_product(first_start, first_end, second_start, second_end));
    assert(first_share == intersection_scale(first_start, first_end, second_start, second_end));
    lemma_quotient(first_numerator, determinant);
    lemma_quotient(second_numerator, determinant);
    lemma_determinants_solve(dx, dy, ex, ey, gx, gy, first_share, second_share);
    assert(point.x == first_start.x + dx * first_share);
    assert(point.y == first_start.y + dy * first_share);
    assert(point.x == second_start.x + ex * second_share);
    assert(point.y == second_start.y + ey * second_share);

    // the sides of the second segment on which the first one starts and ends
    let at_first_start = cross_product(second_start, second_end, second_start, first_start);
    let at_first_end = cross_product(second_start, second_end, second_start, first_end);
    lemma_product_of_difference(ex, first_start.y, second_start.y);
    lemma_product_of_difference(ey, first_start.x, second_start.x);
    lemma_product_of_difference(ex, first_end.y, second_start.y);
    lemma_product_of_difference(ey, first_end.x, second_start.x);
    lemma_product_of_difference(ey, second_start.x, first_start.x);
    lemma_product_of_difference(ex, second_start.y, first_start.y);
    lemma_product_of_difference(ey, first_end.x, first_start.x);
    lemma_product_of_difference(ex, first_end.y, first_start.y);
    lemma_product_of_three(gx, ey, 1real);
    lemma_product_of_three(gy, ex, 1real);
    lemma_product_of_three(dx, ey, 1real);
    lemma_product_of_three(dy, ex, 1real);
    assert(at_first_start == first_numerator);
    assert(at_first_start - at_first_end == determinant);
    assert(first_share * (at_first_start - at_first_end) == at_first_start);
    lemma_share_of_zero(at_first_start, at_first_end, first_share);

    // the sides of the first segment on which the second one starts and ends
    let at_second_start = cross_product(first_start, first_end, first_start, second_start);
    let at_second_end = cross_product(first_start, first_end, first_start, second_end);
    lemma_product_of_difference(dx, second_end.y, first_start.y);
    lemma_product_of_difference(dy, second_end.x, first_start.x);
    lemma_product_of_difference(dx, second_start.y, first_start.y);
    lemma_product_of_difference(dy, second_start.x, first_start.x);
    lemma_product_of_difference(dx, second_end.y, second_start.y);
    lemma_product_of_difference(dy, second_end.x, second_start.x);
    lemma_product_of_three(gx, dy, 1real);
    lemma_product_of_three(gy, dx, 1real);
    assert(at_second_start == -second_numerator);
    assert(at_second_end - at_second_start == determinant);
    lemma_product_of_difference(second_share, at_second_start, at_second_end);
    lemma_product_of_difference(second_share, at_second_end, at_second_start);
    assert(second_share * (at_second_end - at_second_start) == second_numerator);
    assert(second_share * (at_second_start - at_second_end) == at_second_start);
    lemma_share_of_zero(at_second_start, at_second_end, second_share);

    lemma_inner_point_between(first_start, first_end, first_share);
    lemma_inner_point_between(second_start, second_end, second_share);
    assert(point == (PointView {
        x: first_start.x + (first_end.x - first_start.x) * first_share,
        y: first_start.y + (first_end.y - first_start.y) * first_share,
    }));
    assert(point == (PointView {
        x: second_start.x + (second_end.x - second_start.x) * second_share,
        y: second_start.y + (second_end.y - second_start.y) * second_share,
    }));
}

pub fn sign_to_orientation(sign: Sign) -> (result: Orientation)
    ensures
        result == orientation_of_sign(sign),
{
    match sign {
        Sign::Negative => Orientation::Clockwise,
        Sign::Positive => Orientation::Counterclockwise,
        Sign::Zero => Orientation::Collinear,
    }
}

pub fn cross_multiply(
    first_start: &Point,
    first_end: &Point,
    second_start: &Point,
    second_end: &Point,
) -> (result: Fraction)
    ensures
        result@ == cross_product(first_start@, first_end@, second_start@, second_end@),
{
    let first_dx = first_end.x().difference(&first_start.x());
    let first_dy = first_end.y().difference(&first_start.y());
    let second_dx = second_end.x().difference(&second_start.x());
    let second_dy = second_end.y().difference(&second_start.y());
    first_dx.product(&second_dy).difference(&first_dy.product(&second_dx))
}

/// The turn made by going from `start` through `end` to `point`.
pub fn orient(start: &Point, end: &Point, point: &Point) -> (result: Orientation)
    ensures
        result == orientation_of(start@, end@, point@),
{
    sign_to_orientation(cross_multiply(start, end, start, point).sign())
}

/// The common point of two segments that cross.
pub fn intersect_crossing_segments(
    first_start: &Point,
    first_end: &Point,
    second_start: &Point,
    second_end: &Point,
) -> (result: Point)
    requires
        segments_cross(first_start@, first_end@, second_start@, second_end@),
    ensures
        result@ == crossing_point(first_start@, first_end@, second_start@, second_end@),
        orientation_of(first_start@, first_end@, result@) == Orientation::Collinear,
        orientation_of(second_start@, second_end@, result@) == Orientation::Collinear,
{
    proof {
        lemma_separated_not_parallel(first_start@, first_end@, second_start@, second_end@);
        lemma_crossing_point_on_lines(first_start@, first_end@, second_start@, second_end@);
    }
    let scale = cross_multiply(first_start, second_start, second_start, second_end).quotient(
        &cross_multiply(first_start, first_end, second_start, second_end),
    );
    let dx = first_end.x().difference(&first_start.x());
    let dy = first_end.y().difference(&first_start.y());
    Point::new(first_start.x().sum(&dx.product(&scale)), first_start.y().sum(&dy.product(&scale)))
}

/// Orders two points lexicographically.
pub fn to_sorted_pair(first: Point, second: Point) -> (result: (Point, Point))
    ensures
        (result.0@, result.1@) == sorted_pair(first@, second@),
{
    if second.less_than(&first) {
        (second, first)
    } else {
        (first, second)
    }
}

/// The determinant that tells on which side of the circle through
/// `first`, `second` and `third` the point `point` lies: with the three
/// points in counterclockwise order it is positive exactly for points
/// inside the circle.
pub open spec fn in_circle_determinant(
    first: PointView,
    second: PointView,
    third: PointView,
    point: PointView,
) -> real {
    let first_dx = first.x - point.x;
    let first_dy = first.y - point.y;
    let second_dx = second.x - point.x;
    let second_dy = second.y - point.y;
    let third_dx = third.x - point.x;
    let third_dy = third.y - point.y;
    (first_dx * first_dx + first_dy * first_dy) * (second_dx * third_dy - second_dy * third_dx) - (
    second_dx * second_dx + second_dy * second_dy) * (first_dx * third_dy - first_dy * third_dx) + (
    third_dx * third_dx + third_dy * third_dy) * (first_dx * second_dy - first_dy * second_dx)
}

/// Whether `point` lies inside the circle through three points given in
/// counterclockwise order.
pub open spec fn is_inside_circle(
    first: PointView,
    second: PointView,
    third: PointView,
    point: PointView,
) -> bool {
    in_circle_determinant(first, second, third, point) > 0real
}

/// Whether `point` lies inside the circle through three points given in
/// counterclockwise order.
pub fn is_point_inside_circle(first: &Point, second: &Point, third: &Point, point: &Point) -> (result:
    bool)
    ensures
        result == is_inside_circle(first@, second@, third@, point@),
{
    let first_dx = first.x().difference(&point.x());
    let first_dy = first.y().difference(&point.y());
    let second_dx = second.x().difference(&point.x());
    let second_dy = second.y().difference(&point.y());
    let third_dx = third.x().difference(&point.x());
    let third_dy = third.y().difference(&point.y());
    let first_squared_distance = first_dx.product(&first_dx).sum(&first_dy.product(&first_dy));
    let second_squared_distance = second_dx.product(&second_dx).sum(
        &second_dy.product(&second_dy),
    );
    let third_squared_distance = third_dx.product(&third_dx).sum(&third_dy.product(&third_dy));
    let determinant = first_squared_distance.product(
        &second_dx.product(&third_dy).difference(&second_dy.product(&third_dx)),
    ).difference(
        &second_squared_distance.product(
            &first_dx.product(&third_dy).difference(&first_dy.product(&third_dx)),
        ),
    ).sum(
        &third_squared_distance.product(
            &first_dx.product(&second_dy).difference(&first_dy.product(&second_dx)),
        ),
    );
    determinant.sign() == Sign::Positive
}

/// The vertices of a closed polyline that are corners: the first vertex,
/// each vertex between the first and the last at which the polyline turns
/// when coming from the last corner kept, and the last vertex if the way
/// from the last corner kept through it to the first vertex turns.
pub open spec fn shrunk_collinear_vertices(vertices: Seq<PointView>, count: int) -> Seq<PointView>
    decreases count,
{
    if count <= 0 || vertices.len() == 0 {
        Seq::empty()
    } else if count == 1 {
        seq![vertices[0]]
    } else {
        let kept = shrunk_collinear_vertices(vertices, count - 1);
        let next = if count < vertices.len() {
            vertices[count]
        } else {
            kept[0]
        };
        if orientation_of(kept.last(), vertices[count - 1], next) != Orientation::Collinear {
            kept.push(vertices[count - 1])
        } else {
            kept
        }
    }
}

/// Something is always kept, and the first vertex comes first.
pub proof fn lemma_shrunk_collinear_vertices(vertices: Seq<PointView>, count: int)
    requires
        1 <= count <= vertices.len(),
    ensures
        1 <= shrunk_collinear_vertices(vertices, count).len() <= count,
        shrunk_collinear_vertices(vertices, count)[0] == vertices[0],
    decreases count,
{
    if count > 1 {
        lemma_shrunk_collinear_vertices(vertices, count - 1);
    }
}

/// Each vertex that is kept is one of the vertices.
pub proof fn lemma_shrunk_collinear_vertices_are_vertices(vertices: Seq<PointView>, count: int)
    requires
        0 <= count <= vertices.len(),
    ensures
        forall|index: int|
            0 <= index < shrunk_collinear_vertices(vertices, count).len() ==> vertices.contains(
                #[trigger] shrunk_collinear_vertices(vertices, count)[index],
            ),
    decreases count,
{
    if count == 1 {
        assert(vertices[0] == shrunk_collinear_vertices(vertices, count)[0]);
    } else if count > 1 {
        lemma_shrunk_collinear_vertices_are_vertices(vertices, count - 1);
        let kept = shrunk_collinear_vertices(vertices, count - 1);
        let all = shrunk_collinear_vertices(vertices, count);
        assert forall|index: int| 0 <= index < all.len() implies vertices.contains(
            #[trigger] all[index],
        ) by {
            if index < kept.len() {
                assert(all[index] == kept[index]);
            } else {
                assert(all[index] == vertices[count - 1]);
            }
        }
    }
}

/// Leaves out the vertices of a closed polyline at which it goes straight
/// on.
#[verifier::rlimit(40)]
pub fn shrink_collinear_vertices(vertices: &Vec<Point>) -> (result: Vec<Point>)
    requires
        vertices.len() > 0,
    ensures
        result.deep_view() == shrunk_collinear_vertices(
            vertices.deep_view(),
            vertices.len() as int,
        ),
        forall|index: int|
            0 <= index < result.len() ==> vertices.deep_view().contains(
                #[trigger] result.deep_view()[index],
            ),
{
    proof {
        lemma_shrunk_collinear_vertices_are_vertices(vertices.deep_view(), vertices.len() as int);
    }
    let mut result: Vec<Point> = Vec::with_capacity(vertices.len());
    result.push(vertices[0].clone());
    proof {
        assert(result.deep_view() =~= shrunk_collinear_vertices(vertices.deep_view(), 1));
    }
    let mut index: usize = 1;
    while index < vertices.len()
        invariant
            1 <= index <= vertices.len(),
            result.len() >= 1,
            result.deep_view() == shrunk_collinear_vertices(vertices.deep_view(), index as int),
        decreases vertices.len() - index,
    {
        proof {
            lemma_shrunk_collinear_vertices(vertices.deep_view(), index as int);
        }
        let ghost kept = result.deep_view();
        let next = if index + 1 < vertices.len() {
            &vertices[index + 1]
        } else {
            &result[0]
        };
        if orient(&result[result.len() - 1], &vertices[index], next) != Orientation::Collinear {
            result.push(vertices[index].clone());
            proof {
                assert(result.deep_view() =~= kept.push(vertices.deep_view()[index as int]));
            }
        }
        index += 1;
    }
    result
}

/// The indices at which `flags` holds `flag`, in increasing order.
pub open spec fn indices_of(flags: Seq<bool>, flag: bool, count: int) -> Seq<usize>
    decreases count,
{
    if count <= 0 {
        Seq::empty()
    } else if flags[count - 1] == flag {
        indices_of(flags, flag, count - 1).push((count - 1) as usize)
    } else {
        indices_of(flags, flag, count - 1)
    }
}

/// The indices at which `flags` holds `flag`.
fn flags_to_indices(flags: &Vec<bool>, flag: bool) -> (result: Vec<usize>)
    ensures
        result@ == indices_of(flags@, flag, flags.len() as int),
{
    let mut result: Vec<usize> = Vec::new();
    let mut index: usize = 0;
    while index < flags.len()
        invariant
            index <= flags.len(),
            result@ == indices_of(flags@, flag, index as int),
        decreases flags.len() - index,
    {
        if flags[index] == flag {
            result.push(index);
        }
        index += 1;
    }
    result
}

/// The indices of the flags that are not set.
pub fn flags_to_false_indices(flags: &Vec<bool>) -> (result: Vec<usize>)
    ensures
        result@ == indices_of(flags@, false, flags.len() as int),
{
    flags_to_indices(flags, false)
}

/// The indices of the flags that are set.
pub fn flags_to_true_indices(flags: &Vec<bool>) -> (result: Vec<usize>)
    ensures
        result@ == indices_of(flags@, true, flags.len() as int),
{
    flags_to_indices(flags, true)
}

/// Each index that is listed holds the flag, and each index that holds
/// the flag is listed.
pub proof fn lemma_indices_of(flags: Seq<bool>, flag: bool, count: int)
    requires
        0 <= count <= flags.len(),
        count <= usize::MAX,
    ensures
        forall|at: int|
            0 <= at < indices_of(flags, flag, count).len() ==> {
                &&& (#[trigger] indices_of(flags, flag, count)[at]) < count
                &&& flags[indices_of(flags, flag, count)[at] as int] == flag
            },
        forall|index: int|
            0 <= index < count && flags[index] == flag ==> indices_of(flags, flag, count).contains(
                index as usize,
            ),
    decreases count,
{
    if count > 0 {
        lemma_indices_of(flags, flag, count - 1);
        let earlier = indices_of(flags, flag, count - 1);
        let all = indices_of(flags, flag, count);
        assert forall|index: int| 0 <= index < count && flags[index] == flag implies all.contains(
            index as usize,
        ) by {
            if index < count - 1 {
                assert(earlier.contains(index as usize));
                let at = choose|at: int| 0 <= at < earlier.len() && earlier[at] == index as usize;
                assert(all[at] == index as usize);
            } else {
                assert(all[all.len() - 1] == index as usize);
            }
        }
    }
}

/// Each point comes before the ones after it.
pub open spec fn is_strictly_increasing(points: Seq<PointView>) -> bool {
    forall|first: int, second: int|
        0 <= first < second < points.len() ==> point_lt(
            #[trigger] points[first],
            #[trigger] points[second],
        )
}

/// Both sequences hold the same points.
pub open spec fn have_same_points(first: Seq<PointView>, second: Seq<PointView>) -> bool {
    forall|point: PointView| first.contains(point) <==> second.contains(point)
}

/// `sorted` lists the points of `points` once each, in increasing order.
pub open spec fn is_sorted_unique(sorted: Seq<PointView>, points: Seq<PointView>) -> bool {
    is_strictly_increasing(sorted) && have_same_points(sorted, points)
}

/// There is one way only to list the points of a sequence once each in
/// increasing order.
#[verifier::rlimit(40)]
pub proof fn lemma_sorted_unique_is_unique(
    first: Seq<PointView>,
    second: Seq<PointView>,
    points: Seq<PointView>,
)
    requires
        is_sorted_unique(first, points),
        is_sorted_unique(second, points),
    ensures
        first == second,
    decreases first.len(),
{
    if first.len() == 0 {
        if second.len() > 0 {
            assert(second.contains(second[0]));
            assert(first.contains(second[0]));
        }
        assert(first =~= second);
    } else {
        let last = first.last();
        assert(first.contains(last));
        assert(second.contains(last));
        let at = choose|at: int| 0 <= at < second.len() && second[at] == last;
        if at < second.len() - 1 {
            let greater = second.last();
            assert(second.contains(greater));
            assert(first.contains(greater));
            let back = choose|back: int| 0 <= back < first.len() && first[back] == greater;
            assert(point_lt(second[at], second[second.len() - 1]));
            if back < first.len() - 1 {
                assert(point_lt(first[back], first[first.len() - 1]));
            }
        }
        let first_front = first.drop_last();
        let second_front = second.drop_last();
        assert forall|point: PointView| first_front.contains(point) <==> second_front.contains(
            point,
        ) by {
            if first_front.contains(point) {
                let index = choose|index: int|
                    0 <= index < first_front.len() && first_front[index] == point;
                assert(first[index] == point);
                assert(point_lt(first[index], first[first.len() - 1]));
                assert(first.contains(point));
                assert(second.contains(point));
                let other = choose|other: int| 0 <= other < second.len() && second[other] == point;
                assert(second_front[other] == point);
            }
            if second_front.contains(point) {
                let index = choose|index: int|
                    0 <= index < second_front.len() && second_front[index] == point;
                assert(second[index] == point);
                assert(point_lt(second[index], second[second.len() - 1]));
                assert(second.contains(point));
                assert(first.contains(point));
                let other = choose|other: int| 0 <= other < first.len() && first[other] == point;
                assert(first_front[other] == point);
            }
        }
        assert(is_strictly_increasing(first_front)) by {
            assert forall|left: int, right: int|
                0 <= left < right < first_front.len() implies point_lt(
                #[trigger] first_front[left],
                #[trigger] first_front[right],
            ) by {
                assert(point_lt(first[left], first[right]));
            }
        }
        assert(is_strictly_increasing(second_front)) by {
            assert forall|left: int, right: int|
                0 <= left < right < second_front.len() implies point_lt(
                #[trigger] second_front[left],
                #[trigger] second_front[right],
            ) by {
                assert(point_lt(second[left], second[right]));
            }
        }
        lemma_sorted_unique_is_unique(first_front, second_front, first_front);
        assert(first =~= first_front.push(last));
        assert(second =~= second_front.push(last));
    }
}

/// Lists the points once each, in increasing order.
#[verifier::rlimit(40)]
pub fn to_sorted_unique_points(points: &Vec<Point>) -> (result: Vec<Point>)
    ensures
        is_sorted_unique(result.deep_view(), points.deep_view()),
{
    let mut result: Vec<Point> = Vec::new();
    let mut index: usize = 0;
    while index < points.len()
        invariant
            index <= points.len(),
            is_strictly_increasing(result.deep_view()),
            have_same_points(result.deep_view(), points.deep_view().take(index as int)),
        decreases points.len() - index,
    {
        let ghost sorted = result.deep_view();
        let ghost taken = points.deep_view().take(index as int);
        let ghost point = points.deep_view()[index as int];
        let mut position: usize = 0;
        while position < result.len() && result[position].less_than(&points[index])
            invariant
                position <= result.len(),
                index < points.len(),
                sorted == result.deep_view(),
                point == points.deep_view()[index as int],
                forall|other: int| 0 <= other < position ==> point_lt(sorted[other], point),
            decreases result.len() - position,
        {
            position += 1;
        }
        let is_new = position == result.len() || !result[position].equals(&points[index]);
        if is_new {
            result.insert(position, points[index].clone());
        }
        proof {
            let grown = points.deep_view().take(index + 1);
            assert(grown =~= taken.push(point));
            assert(grown[index as int] == point);
            if is_new {
                assert(result.deep_view() =~= sorted.insert(position as int, point));
                let inserted = result.deep_view();
                assert forall|first: int, second: int|
                    0 <= first < second < inserted.len() implies point_lt(
                    #[trigger] inserted[first],
                    #[trigger] inserted[second],
                ) by {
                    if second == position {
                        assert(inserted[first] == sorted[first]);
                    } else if first == position {
                        assert(inserted[second] == sorted[second - 1]);
                        if second - 1 > position {
                            assert(point_lt(sorted[position as int], sorted[second - 1]));
                        }
                    } else {
                        let before_first = if first < position {
                            first
                        } else {
                            first - 1
                        };
                        let before_second = if second < position {
                            second
                        } else {
                            second - 1
                        };
                        assert(inserted[first] == sorted[before_first]);
                        assert(inserted[second] == sorted[before_second]);
                        assert(point_lt(sorted[before_first], sorted[before_second]));
                    }
                }
                assert forall|other: PointView| inserted.contains(other) <==> grown.contains(
                    other,
                ) by {
                    if inserted.contains(other) {
                        let at = choose|at: int| 0 <= at < inserted.len() && inserted[at] == other;
                        if at == position {
                            assert(grown[index as int] == other);
                        } else {
                            let before = if at < position {
                                at
                            } else {
                                at - 1
                            };
                            assert(sorted[before] == other);
                            assert(sorted.contains(other));
                            assert(taken.contains(other));
                            let source = choose|source: int|
                                0 <= source < taken.len() && taken[source] == other;
                            assert(grown[source] == other);
                        }
                    }
                    if grown.contains(other) {
                        let source = choose|source: int|
                            0 <= source < grown.len() && grown[source] == other;
                        if source == index {
                            assert(inserted[position as int] == other);
                        } else {
                            assert(taken[source] == other);
                            assert(taken.contains(other));
                            assert(sorted.contains(other));
                            let at = choose|at: int| 0 <= at < sorted.len() && sorted[at] == other;
                            let after = if at < position {
                                at
                            } else {
                                at + 1
                            };
                            assert(inserted[after] == other);
                        }
                    }
                }
            } else {
                assert(sorted[position as int] == point);
                assert forall|other: PointView| sorted.contains(other) <==> grown.contains(
                    other,
                ) by {
                    if sorted.contains(other) {
                        assert(taken.contains(other));
                        let source = choose|source: int|
                            0 <= source < taken.len() && taken[source] == other;
                        assert(grown[source] == other);
                    }
                    if grown.contains(other) {
                        let source = choose|source: int|
                            0 <= source < grown.len() && grown[source] == other;
                        if source == index {
                            assert(sorted.contains(other));
                        } else {
                            assert(taken[source] == other);
                            assert(taken.contains(other));
                        }
                    }
                }
            }
        }
        index += 1;
    }
    proof {
        assert(points.deep_view().take(index as int) =~= points.deep_view());
    }
    result
}

} // verus!
