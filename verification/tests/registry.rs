use rene::bentley_ottmann::event::{is_left_event, is_right_event};
use rene::bentley_ottmann::events_queue_key::compare_events;
use rene::bentley_ottmann::events_registry::EventsRegistry;
use rene::bentley_ottmann::sweep_line_key::compare_segments_position;
use rene::comparison::Comparison;
use rene::delaunay::quad_edge::{to_opposite_edge, to_rotated_edge};
use rene::delaunay::quad_edge_registry::QuadEdgeRegistry;
use rene::fraction::Fraction;
use rene::geometries::{
    are_unique_hashable_sequences_permutationally_equivalent, Contour, Point, Polygon, Segment,
};
use rene::operations::{
    flags_to_false_indices, flags_to_true_indices, shrink_collinear_vertices,
    to_sorted_unique_points,
};

fn spot(x: i64, y: i64) -> Point {
    Point::new(
        Fraction::from_integers(x, 1).unwrap(),
        Fraction::from_integers(y, 1).unwrap(),
    )
}

fn link(start: (i64, i64), end: (i64, i64)) -> Segment {
    Segment::new(spot(start.0, start.1), spot(end.0, end.1))
}

fn ring(vertices: &[(i64, i64)]) -> Contour {
    Contour::new(vertices.iter().map(|&(x, y)| spot(x, y)).collect())
}

fn drain<const UNIQUE: bool>(registry: &mut EventsRegistry<UNIQUE>) -> Vec<usize> {
    let mut events = Vec::new();
    while let Some(event) = registry.next() {
        events.push(event);
    }
    events
}

#[test]
fn events_are_paired_with_their_opposites() {
    let mut registry = EventsRegistry::<false>::from(&vec![
        link((0, 0), (2, 2)),
        link((0, 2), (2, 0)),
        link((0, 1), (3, 1)),
    ]);
    let events = drain(&mut registry);
    assert!(!events.is_empty());
    for &event in &events {
        let opposite = registry.get_opposite(event);
        assert_eq!(registry.get_opposite(opposite), event);
        assert_ne!(is_left_event(event), is_left_event(opposite));
        assert_eq!(is_right_event(event), !is_left_event(event));
        assert!(registry
            .get_event_start(event)
            .less_than(registry.get_event_end(event)));
    }
}

#[test]
fn crossing_subdivides_both_segments() {
    let mut registry =
        EventsRegistry::<false>::from(&vec![link((0, 0), (2, 2)), link((0, 2), (2, 0))]);
    let events = drain(&mut registry);
    assert_eq!(events.len(), 8);
    assert_eq!(events.iter().filter(|&&event| is_left_event(event)).count(), 4);
    for &event in &events {
        let segment_id = registry.get_event_segment_id(event);
        assert!(segment_id < 2);
    }
    assert!(registry.get_segment_start(0) == &spot(0, 0));
    assert!(registry.get_segment_end(0) == &spot(2, 2));
    assert!(registry.get_segment_start(1) == &spot(0, 2));
    assert!(registry.get_segment_end(1) == &spot(2, 0));
    assert!(!registry.are_collinear(0, 1));
}

#[test]
fn identical_segments_share_a_class() {
    let mut registry =
        EventsRegistry::<true>::from(&vec![link((0, 0), (2, 1)), link((0, 0), (2, 1))]);
    let events = drain(&mut registry);
    assert_eq!(events.len(), 2);
    assert!(registry.are_collinear(0, 1));
    assert_eq!(registry.to_min_collinear_segment_id(1), 0);
    assert_eq!(registry.to_min_collinear_segment_id(0), 0);
}

#[test]
fn identical_segments_are_all_handed_out_without_uniqueness() {
    let mut registry =
        EventsRegistry::<false>::from(&vec![link((0, 0), (2, 1)), link((0, 0), (2, 1))]);
    let events = drain(&mut registry);
    assert_eq!(events.len(), 4);
    assert!(registry.are_collinear(0, 1));
}

#[test]
fn chains_of_overlaps_share_a_class() {
    let mut registry = EventsRegistry::<true>::from(&vec![
        link((4, 0), (5, 0)),
        link((2, 0), (5, 0)),
        link((0, 0), (3, 0)),
        link((0, 0), (1, 0)),
    ]);
    drain(&mut registry);
    for segment_id in 0..4 {
        assert_eq!(registry.to_min_collinear_segment_id(segment_id), 0);
    }
}

#[test]
fn touching_segments_share_no_class() {
    let mut registry =
        EventsRegistry::<true>::from(&vec![link((0, 0), (2, 0)), link((2, 0), (4, 0))]);
    let events = drain(&mut registry);
    assert_eq!(events.len(), 4);
    assert!(!registry.are_collinear(0, 1));
}

#[test]
fn segment_ending_inside_another_cuts_it() {
    let mut registry =
        EventsRegistry::<true>::from(&vec![link((0, 0), (4, 0)), link((2, 0), (2, 2))]);
    let events = drain(&mut registry);
    assert_eq!(events.len(), 6);
}

#[test]
fn queue_order_puts_right_events_first_at_a_point() {
    let endpoints = vec![spot(0, 0), spot(1, 0), spot(1, 0), spot(2, 0)];
    let opposites = vec![1, 0, 3, 2];
    assert_eq!(compare_events(0, 1, &endpoints, &opposites), Comparison::Less);
    assert_eq!(compare_events(1, 2, &endpoints, &opposites), Comparison::Less);
    assert_eq!(compare_events(2, 1, &endpoints, &opposites), Comparison::Greater);
    assert_eq!(compare_events(2, 2, &endpoints, &opposites), Comparison::Equal);
    assert_eq!(compare_events(3, 2, &endpoints, &opposites), Comparison::Greater);
}

#[test]
fn queue_order_falls_back_to_opposites() {
    let endpoints = vec![spot(0, 0), spot(1, 0), spot(0, 0), spot(2, 0)];
    let opposites = vec![1, 0, 3, 2];
    assert_eq!(compare_events(0, 2, &endpoints, &opposites), Comparison::Less);
    assert_eq!(compare_events(2, 0, &endpoints, &opposites), Comparison::Greater);
}

#[test]
fn sweep_line_order_goes_from_bottom_to_top() {
    assert_eq!(
        compare_segments_position(&spot(0, 0), &spot(4, 0), &spot(1, 1), &spot(3, 2)),
        Comparison::Less
    );
    assert_eq!(
        compare_segments_position(&spot(1, 1), &spot(3, 2), &spot(0, 0), &spot(4, 0)),
        Comparison::Greater
    );
    assert_eq!(
        compare_segments_position(&spot(0, -1), &spot(4, 3), &spot(2, 0), &spot(4, 0)),
        Comparison::Greater
    );
    assert_eq!(
        compare_segments_position(&spot(0, 0), &spot(4, 0), &spot(0, 0), &spot(4, 0)),
        Comparison::Equal
    );
    assert_eq!(
        compare_segments_position(&spot(0, 0), &spot(2, 0), &spot(0, 0), &spot(4, 0)),
        Comparison::Less
    );
    assert_eq!(
        compare_segments_position(&spot(0, 0), &spot(2, 2), &spot(0, 0), &spot(2, 1)),
        Comparison::Greater
    );
}

#[test]
fn rotations_of_an_edge_close() {
    for edge in 0..16usize {
        assert_eq!(to_opposite_edge(to_opposite_edge(edge)), edge);
        assert_eq!(
            to_rotated_edge(to_rotated_edge(to_rotated_edge(to_rotated_edge(edge)))),
            edge
        );
        assert_eq!(to_rotated_edge(to_rotated_edge(edge)), to_opposite_edge(edge));
        assert_eq!(to_rotated_edge(edge) / 4, edge / 4);
    }
    assert_eq!(to_rotated_edge(4), 5);
    assert_eq!(to_rotated_edge(7), 4);
    assert_eq!(to_opposite_edge(4), 6);
    assert_eq!(to_opposite_edge(7), 5);
}

#[test]
fn created_edge_stands_alone() {
    let mut registry = QuadEdgeRegistry::from(vec![spot(0, 0), spot(1, 0), spot(0, 1)]);
    let edge = registry.create_edge(0, 1);
    assert_eq!(edge, 0);
    assert_eq!(registry.edges_count(), 4);
    assert_eq!(registry.to_left_from_start(edge), edge);
    assert_eq!(registry.to_left_from_start(to_opposite_edge(edge)), to_opposite_edge(edge));
    assert_eq!(registry.to_left_from_start(1), 3);
    assert_eq!(registry.to_left_from_start(3), 1);
    assert!(registry.get_start(edge) == &spot(0, 0));
    assert!(registry.get_end(edge) == &spot(1, 0));
    assert_eq!(registry.to_start_index(edge), 0);
    assert_eq!(registry.to_end_index(edge), 1);
}

#[test]
fn connected_edges_bound_a_triangle() {
    let mut registry = QuadEdgeRegistry::from(vec![spot(0, 0), spot(1, 0), spot(0, 1)]);
    let first = registry.create_edge(0, 1);
    let second = registry.create_edge(1, 2);
    registry.splice_edges(to_opposite_edge(first), second);
    let third = registry.connect_edges(second, first);
    assert!(registry.get_start(third) == &spot(0, 1));
    assert!(registry.get_end(third) == &spot(0, 0));
    assert_eq!(registry.to_left_from_end(first), second);
    assert_eq!(registry.to_left_from_end(second), third);
    assert_eq!(registry.to_left_from_end(third), first);
    assert_eq!(registry.to_right_from_start(first), to_opposite_edge(third));
    assert_eq!(registry.to_right_from_end(first), second);
    registry.delete_edge(third);
    assert_eq!(registry.to_left_from_start(third), third);
    assert_eq!(registry.to_left_from_end(second), to_opposite_edge(second));
}

#[test]
fn splicing_twice_restores_the_rings() {
    let mut registry = QuadEdgeRegistry::from(vec![spot(0, 0), spot(1, 0), spot(0, 1)]);
    let first = registry.create_edge(0, 1);
    let second = registry.create_edge(0, 2);
    registry.splice_edges(first, second);
    assert_eq!(registry.to_left_from_start(first), second);
    assert_eq!(registry.to_left_from_start(second), first);
    registry.splice_edges(first, second);
    assert_eq!(registry.to_left_from_start(first), first);
    assert_eq!(registry.to_left_from_start(second), second);
}

#[test]
fn points_are_sorted_without_repetition() {
    let sorted = to_sorted_unique_points(&vec![
        spot(2, 1),
        spot(0, 5),
        spot(2, 0),
        spot(0, 5),
        spot(-1, 7),
        spot(2, 1),
    ]);
    assert_eq!(sorted.len(), 4);
    assert!(sorted[0] == spot(-1, 7));
    assert!(sorted[1] == spot(0, 5));
    assert!(sorted[2] == spot(2, 0));
    assert!(sorted[3] == spot(2, 1));
}

#[test]
fn straight_vertices_are_left_out() {
    let corners = shrink_collinear_vertices(&vec![
        spot(0, 0),
        spot(2, 0),
        spot(4, 0),
        spot(4, 4),
        spot(2, 4),
        spot(0, 4),
        spot(0, 2),
    ]);
    assert_eq!(corners.len(), 4);
    assert!(corners[0] == spot(0, 0));
    assert!(corners[1] == spot(4, 0));
    assert!(corners[2] == spot(4, 4));
    assert!(corners[3] == spot(0, 4));
    assert_eq!(shrink_collinear_vertices(&vec![spot(1, 1)]).len(), 1);
}

#[test]
fn flags_are_split_into_indices() {
    let flags = vec![true, false, false, true, true];
    assert_eq!(flags_to_true_indices(&flags), vec![0, 3, 4]);
    assert_eq!(flags_to_false_indices(&flags), vec![1, 2]);
    assert!(flags_to_true_indices(&Vec::new()).is_empty());
}

#[test]
fn contour_yields_its_segments() {
    let contour = ring(&[(0, 0), (4, 0), (0, 4)]);
    let segments = contour.segments();
    assert_eq!(segments.len(), 3);
    assert!(segments[0].start() == spot(0, 0));
    assert!(segments[0].end() == spot(4, 0));
    assert!(segments[2].start() == spot(0, 4));
    assert!(segments[2].end() == spot(0, 0));
    assert_eq!(contour.vertices().len(), 3);
    assert_eq!(ring(&[(3, 3), (1, 5), (1, 2)]).to_min_vertex_index(), 2);
}

#[test]
fn segments_are_equal_in_either_direction() {
    assert!(link((0, 0), (1, 2)) == link((1, 2), (0, 0)));
    assert!(link((0, 0), (1, 2)) == link((0, 0), (1, 2)));
    assert!(link((0, 0), (1, 2)) != link((0, 0), (2, 1)));
}

#[test]
fn polygons_are_equal_up_to_the_order_of_holes() {
    let border = ring(&[(0, 0), (10, 0), (10, 10), (0, 10)]);
    let first_hole = ring(&[(1, 1), (2, 1), (1, 2)]);
    let second_hole = ring(&[(5, 5), (6, 5), (5, 6)]);
    let polygon = Polygon::new(border.clone(), vec![first_hole.clone(), second_hole.clone()]);
    let reordered = Polygon::new(
        ring(&[(10, 0), (10, 10), (0, 10), (0, 0)]),
        vec![second_hole.clone(), first_hole.clone()],
    );
    assert!(polygon.equals(&reordered));
    assert!(!polygon.equals(&Polygon::new(border.clone(), vec![first_hole.clone()])));
    assert!(!polygon.equals(&Polygon::new(
        border.clone(),
        vec![first_hole.clone(), ring(&[(7, 7), (8, 7), (7, 8)])]
    )));
    assert!(polygon.border().equals(&border));
    assert_eq!(polygon.holes().len(), 2);
    assert!(are_unique_hashable_sequences_permutationally_equivalent(
        &vec![first_hole.clone(), second_hole.clone()],
        &vec![second_hole, first_hole]
    ));
}

#[test]
fn no_event_is_handed_out_twice() {
    let input = vec![
        link((0, 0), (4, 4)),
        link((0, 4), (4, 0)),
        link((0, 2), (4, 2)),
        link((1, 1), (3, 3)),
        link((2, 0), (2, 5)),
        link((0, 0), (4, 0)),
        link((2, 0), (6, 0)),
    ];
    let mut registry = EventsRegistry::<false>::from(&input);
    let events = drain(&mut registry);
    for (index, event) in events.iter().enumerate() {
        assert!(events.iter().skip(index + 1).all(|other| other != event));
    }
    let mut unique_registry = EventsRegistry::<true>::from(&input);
    let unique_events = drain(&mut unique_registry);
    assert!(unique_events.len() <= events.len());
    for (index, event) in unique_events.iter().enumerate() {
        assert!(unique_events.iter().skip(index + 1).all(|other| other != event));
    }
}

#[test]
fn segments_of_one_class_lie_on_one_line() {
    let input = vec![
        link((0, 0), (4, 4)),
        link((1, 1), (3, 3)),
        link((2, 2), (6, 6)),
        link((0, 4), (4, 0)),
        link((5, 5), (7, 7)),
        link((9, 9), (10, 10)),
    ];
    let mut registry = EventsRegistry::<true>::from(&input);
    drain(&mut registry);
    assert!(registry.are_collinear(0, 1));
    assert!(registry.are_collinear(0, 2));
    assert!(registry.are_collinear(2, 4));
    assert!(registry.are_collinear(1, 4));
    assert!(!registry.are_collinear(0, 3));
    assert!(!registry.are_collinear(0, 5));
}

#[test]
fn uniting_keeps_the_classes_that_there_are() {
    // the classes of 2 and 3, then of 1 and 2 and of 0 and 1 grow into one
    let mut registry = EventsRegistry::<true>::from(&vec![
        link((4, 0), (5, 0)),
        link((2, 0), (5, 0)),
        link((0, 0), (3, 0)),
        link((0, 0), (1, 0)),
        link((0, 1), (3, 1)),
    ]);
    drain(&mut registry);
    for first in 0..4 {
        for second in 0..4 {
            assert!(registry.are_collinear(first, second));
        }
        assert!(!registry.are_collinear(first, 4));
    }
}
