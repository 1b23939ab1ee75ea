use rene::bentley_ottmann::base::to_unique_non_crossing_or_overlapping_segments;
use rene::bentley_ottmann::event::is_left_event;
use rene::bentley_ottmann::events_registry::EventsRegistry;
use rene::fraction::Fraction;
use rene::geometries::{Point, Segment};

fn point(x: i64, y: i64) -> Point {
    Point::new(
        Fraction::from_integers(x, 1).unwrap(),
        Fraction::from_integers(y, 1).unwrap(),
    )
}

fn segment(start: (i64, i64), end: (i64, i64)) -> Segment {
    Segment::new(point(start.0, start.1), point(end.0, end.1))
}

fn contains(segments: &[Segment], expected: &Segment) -> bool {
    segments.iter().any(|candidate| candidate == expected)
}

#[test]
fn single_segment_is_kept() {
    let result = to_unique_non_crossing_or_overlapping_segments(&vec![segment((0, 0), (1, 0))]);
    assert_eq!(result.len(), 1);
    assert!(result[0] == segment((0, 0), (1, 0)));
}

#[test]
fn single_segment_emits_left_then_right() {
    let mut registry = EventsRegistry::<false>::from(&vec![segment((0, 0), (1, 0))]);
    let first = registry.next().unwrap();
    assert!(is_left_event(first));
    assert_eq!(first, 0);
    let second = registry.next().unwrap();
    assert!(!is_left_event(second));
    assert_eq!(second, 1);
    assert!(registry.next().is_none());
}

#[test]
fn crossing_segments_are_cut_at_the_crossing() {
    let result = to_unique_non_crossing_or_overlapping_segments(&vec![
        segment((0, 0), (2, 2)),
        segment((0, 2), (2, 0)),
    ]);
    assert_eq!(result.len(), 4);
    assert!(contains(&result, &segment((0, 0), (1, 1))));
    assert!(contains(&result, &segment((1, 1), (2, 2))));
    assert!(contains(&result, &segment((0, 2), (1, 1))));
    assert!(contains(&result, &segment((1, 1), (2, 0))));
}

#[test]
fn collinear_overlap_is_cut_in_three() {
    let result = to_unique_non_crossing_or_overlapping_segments(&vec![
        segment((0, 0), (4, 0)),
        segment((2, 0), (6, 0)),
    ]);
    assert_eq!(result.len(), 3);
    assert!(contains(&result, &segment((0, 0), (2, 0))));
    assert!(contains(&result, &segment((2, 0), (4, 0))));
    assert!(contains(&result, &segment((4, 0), (6, 0))));
}

#[test]
fn identical_segments_leave_one_copy() {
    let result = to_unique_non_crossing_or_overlapping_segments(&vec![
        segment((0, 0), (3, 1)),
        segment((3, 1), (0, 0)),
    ]);
    assert_eq!(result.len(), 1);
    assert!(result[0] == segment((0, 0), (3, 1)));
}

fn is_on(start: &Point, end: &Point, point: &Point) -> bool {
    rene::operations::orient(start, end, point) == rene::oriented::Orientation::Collinear
        && !point.less_than(start)
        && !end.less_than(point)
}

fn same_multiset(first: &[Segment], second: &[Segment]) -> bool {
    first.len() == second.len()
        && first.iter().all(|segment| {
            first.iter().filter(|other| *other == segment).count()
                == second.iter().filter(|other| *other == segment).count()
        })
}

fn tangle() -> Vec<Segment> {
    vec![
        segment((0, 0), (4, 4)),
        segment((0, 4), (4, 0)),
        segment((0, 2), (4, 2)),
        segment((1, 1), (3, 3)),
        segment((2, 0), (2, 5)),
        segment((0, 0), (4, 0)),
        segment((2, 0), (6, 0)),
        segment((5, -1), (5, 3)),
    ]
}

#[test]
fn swept_segments_are_parts_of_the_input() {
    let input = tangle();
    let result = to_unique_non_crossing_or_overlapping_segments(&input);
    assert!(!result.is_empty());
    for part in &result {
        assert!(part.start().less_than(&part.end()));
        assert!(input.iter().any(|whole| {
            let (start, end) = if whole.end().less_than(&whole.start()) {
                (whole.end(), whole.start())
            } else {
                (whole.start(), whole.end())
            };
            is_on(&start, &end, &part.start()) && is_on(&start, &end, &part.end())
        }));
    }
}

#[test]
fn swept_segments_do_not_repeat() {
    let result = to_unique_non_crossing_or_overlapping_segments(&tangle());
    for (index, part) in result.iter().enumerate() {
        assert!(result.iter().skip(index + 1).all(|other| other != part));
    }
}

#[test]
fn sweeping_again_changes_nothing() {
    for input in [
        tangle(),
        vec![segment((0, 0), (2, 2)), segment((0, 2), (2, 0))],
        vec![segment((0, 0), (4, 0)), segment((2, 0), (6, 0))],
        vec![segment((0, 0), (1, 0))],
    ] {
        let once = to_unique_non_crossing_or_overlapping_segments(&input);
        let twice = to_unique_non_crossing_or_overlapping_segments(&once);
        assert!(same_multiset(&once, &twice));
    }
}

#[test]
fn order_of_the_input_does_not_matter() {
    let input = tangle();
    let expected = to_unique_non_crossing_or_overlapping_segments(&input);
    let mut reversed = input.clone();
    reversed.reverse();
    assert!(same_multiset(
        &expected,
        &to_unique_non_crossing_or_overlapping_segments(&reversed)
    ));
    let mut rotated = input.clone();
    rotated.rotate_left(3);
    assert!(same_multiset(
        &expected,
        &to_unique_non_crossing_or_overlapping_segments(&rotated)
    ));
}

#[test]
fn events_at_one_point_may_come_right_after_left() {
    let mut registry =
        EventsRegistry::<false>::from(&vec![segment((0, 0), (4, 0)), segment((2, 0), (2, 2))]);
    let mut events = Vec::new();
    while let Some(event) = registry.next() {
        events.push(event);
    }
    assert_eq!(events.len(), 6);
    assert!(is_left_event(events[0]));
    assert!(registry.get_event_point(events[0]) == &point(0, 0));
    // the segment met in its interior is cut only when the other one starts
    assert!(is_left_event(events[1]));
    assert!(registry.get_event_point(events[1]) == &point(2, 0));
    assert!(!is_left_event(events[2]));
    assert!(registry.get_event_point(events[2]) == &point(2, 0));
    assert!(registry.get_event_start(events[2]) == &point(0, 0));
    assert!(registry.get_event_end(events[2]) == &point(2, 0));
    for pair in events.windows(2) {
        assert!(!registry
            .get_event_point(pair[1])
            .less_than(registry.get_event_point(pair[0])));
    }
}

#[test]
fn start_of_an_event_is_its_smaller_endpoint() {
    let mut registry = EventsRegistry::<false>::from(&tangle());
    let mut count = 0;
    while let Some(event) = registry.next() {
        assert!(registry
            .get_event_start(event)
            .less_than(registry.get_event_end(event)));
        let own = registry.get_event_point(event);
        if is_left_event(event) {
            assert!(own == registry.get_event_start(event));
        } else {
            assert!(own == registry.get_event_end(event));
        }
        count += 1;
    }
    assert!(count > 16);
}

#[test]
fn single_segment_is_handed_out_from_its_smaller_end() {
    for input in [segment((3, 1), (0, 0)), segment((0, 0), (3, 1))] {
        let result = to_unique_non_crossing_or_overlapping_segments(&vec![input]);
        assert_eq!(result.len(), 1);
        assert!(result[0].start() == point(0, 0));
        assert!(result[0].end() == point(3, 1));
    }
}
