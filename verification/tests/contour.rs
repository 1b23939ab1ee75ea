use rene::bentley_ottmann::base::is_contour_valid;
use rene::bentley_ottmann::sweep::Sweep;
use rene::fraction::Fraction;
use rene::geometries::{Contour, Point, Segment};
use rene::oriented::Orientation;
use rene::relatable::Relation;

fn to_point(x: i64, y: i64) -> Point {
    Point::new(
        Fraction::from_integers(x, 1).unwrap(),
        Fraction::from_integers(y, 1).unwrap(),
    )
}

fn to_contour(vertices: &[(i64, i64)]) -> Contour {
    Contour::new(vertices.iter().map(|&(x, y)| to_point(x, y)).collect())
}

#[test]
fn square_is_valid() {
    assert!(is_contour_valid(&to_contour(&[(0, 0), (4, 0), (4, 4), (0, 4)])));
}

#[test]
fn clockwise_square_is_valid() {
    assert!(is_contour_valid(&to_contour(&[(0, 0), (0, 4), (4, 4), (4, 0)])));
}

#[test]
fn triangle_is_valid() {
    assert!(is_contour_valid(&to_contour(&[(0, 0), (4, 0), (0, 4)])));
}

#[test]
fn self_touching_bowtie_is_invalid() {
    assert!(!is_contour_valid(&to_contour(&[
        (0, 0),
        (2, 0),
        (1, 1),
        (2, 2),
        (0, 2),
        (1, 1)
    ])));
}

#[test]
fn self_crossing_contour_is_invalid() {
    assert!(!is_contour_valid(&to_contour(&[(0, 0), (2, 2), (2, 0), (0, 2)])));
}

#[test]
fn contour_with_two_vertices_is_invalid() {
    assert!(!is_contour_valid(&to_contour(&[(0, 0), (1, 0)])));
}

#[test]
fn contour_without_vertices_is_invalid() {
    assert!(!is_contour_valid(&to_contour(&[])));
}

#[test]
fn contour_with_repeated_vertex_is_invalid() {
    assert!(!is_contour_valid(&to_contour(&[(0, 0), (0, 0), (4, 0), (0, 4)])));
}

#[test]
fn contour_with_overlapping_segments_is_invalid() {
    assert!(!is_contour_valid(&to_contour(&[(0, 0), (4, 0), (2, 0), (2, 2)])));
}

#[test]
fn segments_sharing_an_endpoint_touch() {
    let segments = vec![
        Segment::new(to_point(0, 0), to_point(2, 0)),
        Segment::new(to_point(2, 0), to_point(2, 2)),
    ];
    let mut sweep = Sweep::from(&segments);
    let intersection = sweep.next().unwrap();
    assert_eq!(intersection.relation, Relation::Touch);
    assert!(intersection.start == to_point(2, 0));
    assert!(intersection.end == to_point(2, 0));
    let ids = (intersection.first_segment_id, intersection.second_segment_id);
    assert!(ids == (0, 1) || ids == (1, 0));
    assert!(sweep.next().is_none());
}

#[test]
fn crossing_segments_cross() {
    let segments = vec![
        Segment::new(to_point(0, 0), to_point(2, 2)),
        Segment::new(to_point(0, 2), to_point(2, 0)),
    ];
    let mut sweep = Sweep::from(&segments);
    let intersection = sweep.next().unwrap();
    assert_eq!(intersection.relation, Relation::Cross);
    assert!(intersection.start == to_point(1, 1));
    assert!(intersection.end == to_point(1, 1));
    assert!(sweep.next().is_none());
}

#[test]
fn overlapping_segments_overlap() {
    let segments = vec![
        Segment::new(to_point(0, 0), to_point(4, 0)),
        Segment::new(to_point(2, 0), to_point(6, 0)),
    ];
    let mut sweep = Sweep::from(&segments);
    let intersection = sweep.next().unwrap();
    assert_eq!(intersection.relation, Relation::Overlap);
    assert!(intersection.start == to_point(2, 0));
    assert!(intersection.end == to_point(4, 0));
}

#[test]
fn disjoint_segments_do_not_intersect() {
    let segments = vec![
        Segment::new(to_point(0, 0), to_point(1, 0)),
        Segment::new(to_point(0, 1), to_point(1, 1)),
    ];
    let mut sweep = Sweep::from(&segments);
    assert!(sweep.next().is_none());
}

#[test]
fn counterclockwise_square_orientation() {
    assert_eq!(
        to_contour(&[(0, 0), (4, 0), (4, 4), (0, 4)]).orientation(),
        Orientation::Counterclockwise
    );
    assert_eq!(
        to_contour(&[(0, 0), (0, 4), (4, 4), (4, 0)]).orientation(),
        Orientation::Clockwise
    );
}

#[test]
fn contours_are_equal_up_to_rotation() {
    let contour = to_contour(&[(0, 0), (4, 0), (4, 4), (0, 4)]);
    assert!(contour.equals(&to_contour(&[(4, 0), (4, 4), (0, 4), (0, 0)])));
    assert!(contour.equals(&to_contour(&[(0, 0), (0, 4), (4, 4), (4, 0)])));
    assert!(!contour.equals(&to_contour(&[(0, 0), (4, 4), (4, 0), (0, 4)])));
    assert!(!contour.equals(&to_contour(&[(0, 0), (4, 0), (4, 4)])));
}

#[test]
fn contours_are_equal_up_to_rotation_of_the_reversal() {
    let contour = to_contour(&[(0, 0), (4, 0), (4, 4), (0, 4)]);
    assert!(contour.equals(&to_contour(&[(4, 0), (0, 0), (0, 4), (4, 4)])));
    assert!(contour.equals(&to_contour(&[(4, 4), (4, 0), (0, 0), (0, 4)])));
    assert!(contour.equals(&to_contour(&[(0, 4), (4, 4), (4, 0), (0, 0)])));
    assert!(contour.equals(&to_contour(&[(0, 4), (0, 0), (4, 0), (4, 4)])));
    assert!(!contour.equals(&to_contour(&[(0, 4), (0, 0), (4, 4), (4, 0)])));
    assert!(!contour.equals(&to_contour(&[(4, 0), (0, 0), (4, 4), (0, 4)])));
    assert!(!contour.equals(&to_contour(&[(0, 0), (4, 0), (4, 4), (1, 4)])));
}

#[test]
fn equal_contours_have_the_same_normalized_vertices() {
    let expected = to_contour(&[(0, 0), (4, 0), (4, 4), (0, 4)]).to_normalized_vertices();
    for other in [
        to_contour(&[(4, 0), (0, 0), (0, 4), (4, 4)]),
        to_contour(&[(4, 4), (0, 4), (0, 0), (4, 0)]),
        to_contour(&[(0, 4), (4, 4), (4, 0), (0, 0)]),
    ] {
        let vertices = other.to_normalized_vertices();
        assert_eq!(vertices.len(), expected.len());
        for (vertex, expected_vertex) in vertices.iter().zip(expected.iter()) {
            assert!(vertex == expected_vertex);
        }
    }
}

#[test]
fn equal_segments_have_the_same_sorted_endpoints() {
    let segment = Segment::new(to_point(1, 2), to_point(0, 0));
    let reversed = Segment::new(to_point(0, 0), to_point(1, 2));
    assert!(segment.start() == to_point(1, 2));
    assert!(segment.end() == to_point(0, 0));
    assert!(segment == reversed);
    let (first, second) = segment.to_sorted_endpoints();
    let (other_first, other_second) = reversed.to_sorted_endpoints();
    assert!(first == to_point(0, 0));
    assert!(second == to_point(1, 2));
    assert!(first == other_first);
    assert!(second == other_second);
}
