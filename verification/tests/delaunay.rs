use rene::fraction::Fraction;
use rene::geometries::Point;
use rene::operations::{is_point_inside_circle, orient};
use rene::oriented::Orientation;
use rene::triangulation::delaunay::DelaunayTriangulation;

fn at(x: i64, y: i64) -> Point {
    Point::new(
        Fraction::from_integers(x, 1).unwrap(),
        Fraction::from_integers(y, 1).unwrap(),
    )
}

fn to_points(coordinates: &[(i64, i64)]) -> Vec<Point> {
    coordinates.iter().map(|&(x, y)| at(x, y)).collect()
}

fn has_vertex(triangle: &[Point; 3], point: &Point) -> bool {
    triangle.iter().any(|vertex| vertex == point)
}

fn is_delaunay(points: &[Point], triangles: &[[Point; 3]]) -> bool {
    triangles.iter().all(|triangle| {
        orient(&triangle[0], &triangle[1], &triangle[2]) == Orientation::Counterclockwise
            && points.iter().all(|point| {
                !is_point_inside_circle(&triangle[0], &triangle[1], &triangle[2], point)
            })
    })
}

#[test]
fn one_point_has_no_triangle() {
    let triangulation = DelaunayTriangulation::from(to_points(&[(1, 2)]));
    assert!(triangulation.is_empty());
    assert!(triangulation.to_triangles_vertices().is_empty());
    let boundary = triangulation.to_boundary_points();
    assert_eq!(boundary.len(), 1);
    assert!(boundary[0] == at(1, 2));
}

#[test]
fn no_point_has_no_triangle() {
    let triangulation = DelaunayTriangulation::from(Vec::new());
    assert!(triangulation.is_empty());
    assert!(triangulation.to_triangles_vertices().is_empty());
    assert!(triangulation.to_boundary_points().is_empty());
}

#[test]
fn two_points_have_no_triangle() {
    let triangulation = DelaunayTriangulation::from(to_points(&[(3, 0), (0, 0)]));
    assert!(!triangulation.is_empty());
    assert!(triangulation.to_triangles_vertices().is_empty());
    let boundary = triangulation.to_boundary_points();
    assert_eq!(boundary.len(), 2);
    assert!(boundary[0] == at(0, 0));
    assert!(boundary[1] == at(3, 0));
}

#[test]
fn repeated_points_count_once() {
    let triangulation = DelaunayTriangulation::from(to_points(&[(0, 0), (0, 0), (0, 0)]));
    assert!(triangulation.is_empty());
    assert_eq!(triangulation.to_boundary_points().len(), 1);
}

#[test]
fn three_collinear_points_have_no_triangle() {
    let triangulation = DelaunayTriangulation::from(to_points(&[(0, 0), (1, 1), (2, 2)]));
    assert!(!triangulation.is_empty());
    assert!(triangulation.to_triangles_vertices().is_empty());
    let boundary = triangulation.to_boundary_points();
    assert_eq!(boundary.len(), 1);
    assert!(boundary[0] == at(0, 0));
}

#[test]
fn three_points_make_one_triangle() {
    let triangulation = DelaunayTriangulation::from(to_points(&[(0, 0), (0, 3), (4, 0)]));
    let triangles = triangulation.to_triangles_vertices();
    assert_eq!(triangles.len(), 1);
    assert!(triangles[0][0] == at(0, 0));
    assert!(triangles[0][1] == at(4, 0));
    assert!(triangles[0][2] == at(0, 3));
    let boundary = triangulation.to_boundary_points();
    assert_eq!(boundary.len(), 3);
    assert!(boundary[0] == at(0, 0));
    assert!(boundary[1] == at(4, 0));
    assert!(boundary[2] == at(0, 3));
}

#[test]
fn three_points_in_clockwise_order_make_one_triangle() {
    let triangulation = DelaunayTriangulation::from(to_points(&[(0, 0), (2, 3), (4, 0)]));
    let triangles = triangulation.to_triangles_vertices();
    assert_eq!(triangles.len(), 1);
    assert!(triangles[0][0] == at(0, 0));
    assert!(triangles[0][1] == at(4, 0));
    assert!(triangles[0][2] == at(2, 3));
    assert_eq!(triangulation.to_boundary_points().len(), 3);
}

#[test]
fn unit_square_makes_two_triangles() {
    let points = to_points(&[(0, 0), (1, 0), (0, 1), (1, 1)]);
    let triangulation = DelaunayTriangulation::from(points.clone());
    let triangles = triangulation.to_triangles_vertices();
    assert_eq!(triangles.len(), 2);
    assert!(is_delaunay(&points, &triangles));
    let shared = points
        .iter()
        .filter(|point| has_vertex(&triangles[0], point) && has_vertex(&triangles[1], point))
        .count();
    assert_eq!(shared, 2);
    let boundary = triangulation.to_boundary_points();
    assert_eq!(boundary.len(), 4);
    assert!(boundary[0] == at(0, 0));
    assert!(boundary[1] == at(1, 0));
    assert!(boundary[2] == at(1, 1));
    assert!(boundary[3] == at(0, 1));
}

#[test]
fn square_makes_two_triangles_along_a_diagonal() {
    let points = to_points(&[(0, 0), (4, 0), (4, 4), (0, 4)]);
    let triangulation = DelaunayTriangulation::from(points.clone());
    let triangles = triangulation.to_triangles_vertices();
    assert_eq!(triangles.len(), 2);
    assert!(is_delaunay(&points, &triangles));
    for point in &points {
        assert!(has_vertex(&triangles[0], point) || has_vertex(&triangles[1], point));
    }
}

#[test]
fn points_in_general_position_are_triangulated() {
    let points = to_points(&[
        (0, 0),
        (5, 1),
        (9, 0),
        (2, 4),
        (7, 5),
        (4, 8),
        (10, 9),
        (1, 10),
        (6, 3),
    ]);
    let triangulation = DelaunayTriangulation::from(points.clone());
    let triangles = triangulation.to_triangles_vertices();
    assert!(is_delaunay(&points, &triangles));
    let boundary = triangulation.to_boundary_points();
    assert_eq!(triangles.len(), 2 * points.len() - 2 - boundary.len());
    for index in 0..boundary.len() {
        assert_eq!(
            orient(
                &boundary[index],
                &boundary[(index + 1) % boundary.len()],
                &boundary[(index + 2) % boundary.len()]
            ),
            Orientation::Counterclockwise
        );
    }
}

#[test]
fn boundary_leaves_out_points_on_sides() {
    let triangulation =
        DelaunayTriangulation::from(to_points(&[(0, 0), (2, 0), (4, 0), (4, 4), (0, 4), (2, 1)]));
    let boundary = triangulation.to_boundary_points();
    assert_eq!(boundary.len(), 4);
    assert!(boundary[0] == at(0, 0));
    assert!(boundary[1] == at(4, 0));
    assert!(boundary[2] == at(4, 4));
    assert!(boundary[3] == at(0, 4));
}

#[test]
fn point_inside_circle_is_told_from_one_outside() {
    assert!(is_point_inside_circle(&at(0, 0), &at(4, 0), &at(0, 4), &at(1, 1)));
    assert!(!is_point_inside_circle(&at(0, 0), &at(4, 0), &at(0, 4), &at(5, 5)));
    assert!(!is_point_inside_circle(&at(0, 0), &at(4, 0), &at(0, 4), &at(4, 4)));
}
