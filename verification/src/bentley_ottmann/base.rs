//! What a sweep over segments yields.

use crate::bentley_ottmann::event::{is_left, is_left_event, Event};
use crate::bentley_ottmann::events_registry::{initial_view, EventsRegistry, RegistryView};
use crate::bentley_ottmann::sweep::{
    initial_sweep_view,
    Intersection,
    IntersectionView,
    Sweep,
    SweepView,
};
use crate::geometries::{
    are_proper,
    contour_segments,
    point_lt,
    Contour,
    PointView,
    Segment,
    SegmentView,
};
use crate::incidence::lies_on;
use crate::operations::sorted_pair;
use crate::relatable::Relation;
use vstd::prelude::*;

verus! {

/// The segments of the right events that a sweep which passes over
/// repeated segments hands out from `state` on, in that order. At most
/// `steps` events are taken; a sweep has no more than its potential.
pub open spec fn swept_segments(state: RegistryView, steps: nat) -> Seq<SegmentView>
    decreases steps,
{
    if steps == 0 {
        Seq::empty()
    } else {
        let (next_state, maybe_event) = state.next(true);
        match maybe_event {
            None => Seq::empty(),
            Some(event) => {
                let rest = swept_segments(next_state, (steps - 1) as nat);
                if is_left(event) {
                    rest
                } else {
                    seq![
                        SegmentView { start: next_state.start(event), end: next_state.end(event) },
                    ] + rest
                }
            },
        }
    }
}

/// Both ends of `part` lie on the segment `whole`.
pub open spec fn is_part_of(part: SegmentView, whole: SegmentView) -> bool {
    &&& lies_on(
        sorted_pair(whole.start, whole.end).0,
        sorted_pair(whole.start, whole.end).1,
        part.start,
    )
    &&& lies_on(
        sorted_pair(whole.start, whole.end).0,
        sorted_pair(whole.start, whole.end).1,
        part.end,
    )
}

/// Both ends of `part` lie on one of `segments`.
#[verifier::opaque]
pub open spec fn is_part_of_one(part: SegmentView, segments: Seq<SegmentView>) -> bool {
    exists|index: int| 0 <= index < segments.len() && is_part_of(part, #[trigger] segments[index])
}

/// The state is one of a sweep over `segments`: its tables hold what
/// the sweep started with.
#[verifier::opaque]
pub open spec fn is_sweep_of(state: RegistryView, segments: Seq<SegmentView>) -> bool {
    state.extends(initial_view(segments))
}

/// The state that a sweep starts from is one of the sweep.
pub proof fn lemma_sweep_starts(segments: Seq<SegmentView>)
    ensures
        is_sweep_of(initial_view(segments), segments),
{
    reveal(is_sweep_of);
}

/// Each later state of a sweep is one of the sweep.
pub proof fn lemma_sweep_goes_on(
    state: RegistryView,
    next_state: RegistryView,
    segments: Seq<SegmentView>,
)
    requires
        is_sweep_of(state, segments),
        next_state.extends(state),
    ensures
        is_sweep_of(next_state, segments),
{
    reveal(is_sweep_of);
    let initial = initial_view(segments);
    assert forall|event: int| 0 <= event < initial.endpoints.len() implies (
    #[trigger] next_state.endpoints[event]) == initial.endpoints[event] by {
        assert(state.endpoints[event] == initial.endpoints[event]);
    }
    assert forall|index: int| 0 <= index < initial.segments_ids.len() implies (
    #[trigger] next_state.segments_ids[index]) == initial.segments_ids[index] by {
        assert(state.segments_ids[index] == initial.segments_ids[index]);
    }
}

/// In a state of a sweep over segments that are no single points, the
/// segment of a right event is no single point, runs from its smaller
/// end to its larger one and is a part of one of the segments.
#[verifier::rlimit(40)]
pub proof fn lemma_segment_of_right_event(
    state: RegistryView,
    segments: Seq<SegmentView>,
    event: Event,
)
    requires
        state.wf(),
        state.is_proper(),
        state.are_parts(),
        is_sweep_of(state, segments),
        state.is_event(event),
        !is_left(event),
    ensures
        point_lt(state.start(event), state.end(event)),
        is_part_of_one(SegmentView { start: state.start(event), end: state.end(event) }, segments),
{
    reveal(is_sweep_of);
    let initial = initial_view(segments);
    let left_event = state.opposite(event);
    state.lemma_opposites_pair(event);
    state.lemma_parts_of(left_event);
    let id = state.left_event_segment_id(left_event);
    assert(state.segments_ids[left_event as int / 2] < state.min_collinear_segments_ids.len());
    assert(state.endpoints[2 * id] == initial.endpoints[2 * id]);
    assert(state.endpoints[2 * id + 1] == initial.endpoints[2 * id + 1]);
    assert(point_lt(
        state.endpoints[left_event as int],
        state.endpoints[state.opposites[left_event as int] as int],
    ));
    assert(is_part_of(
        SegmentView { start: state.start(event), end: state.end(event) },
        segments[id as int],
    ));
    reveal(is_part_of_one);
}

/// Cuts segments where they meet and leaves out repeated parts: each
/// result is the part of an input segment between two neighbouring
/// points at which the sweep stopped on it, from its smaller end to its
/// larger one.
#[verifier::rlimit(40)]
pub fn to_unique_non_crossing_or_overlapping_segments(segments: &Vec<Segment>) -> (result: Vec<
    Segment,
>)
    ensures
        result.deep_view() == swept_segments(
            initial_view(segments.deep_view()),
            initial_view(segments.deep_view()).potential() as nat,
        ),
        forall|index: int|
            0 <= index < result.len() ==> !point_lt(
                (#[trigger] result.deep_view()[index]).end,
                result.deep_view()[index].start,
            ),
        are_proper(segments.deep_view()) ==> forall|index: int|
            0 <= index < result.len() ==> point_lt(
                (#[trigger] result.deep_view()[index]).start,
                result.deep_view()[index].end,
            ) && is_part_of_one(result.deep_view()[index], segments.deep_view()),
{
    let mut result: Vec<Segment> = Vec::with_capacity(segments.len());
    let mut events_registry = EventsRegistry::<true>::from(segments);
    let ghost initial = events_registry@;
    let ghost mut steps: nat = initial.potential() as nat;
    proof {
        lemma_sweep_starts(segments.deep_view());
    }
    loop
        invariant
            events_registry@.wf(),
            events_registry@.is_ordered(),
            is_sweep_of(events_registry@, segments.deep_view()),
            are_proper(segments.deep_view()) ==> events_registry@.is_proper()
                && events_registry@.are_parts(),
            are_proper(segments.deep_view()) ==> forall|index: int|
                0 <= index < result.len() ==> point_lt(
                    (#[trigger] result.deep_view()[index]).start,
                    result.deep_view()[index].end,
                ) && is_part_of_one(result.deep_view()[index], segments.deep_view()),
            initial == initial_view(segments.deep_view()),
            events_registry@.potential() <= steps,
            forall|index: int|
                0 <= index < result.len() ==> !point_lt(
                    (#[trigger] result.deep_view()[index]).end,
                    result.deep_view()[index].start,
                ),
            result.deep_view() + swept_segments(events_registry@, steps) == swept_segments(
                initial,
                initial.potential() as nat,
            ),
        decreases events_registry@.potential(),
    {
        let ghost before = events_registry@;
        let ghost collected = result.deep_view();
        match events_registry.next() {
            None => {
                proof {
                    assert(collected + Seq::<SegmentView>::empty() =~= collected);
                }
                return result;
            },
            Some(event) => {
                if !is_left_event(event) {
                    result.push(
                        Segment::new(
                            events_registry.get_event_start(event).clone(),
                            events_registry.get_event_end(event).clone(),
                        ),
                    );
                }
                proof {
                    lemma_sweep_goes_on(before, events_registry@, segments.deep_view());
                    events_registry@.lemma_opposites_pair(event);
                    let rest = swept_segments(events_registry@, (steps - 1) as nat);
                    if is_left(event) {
                        assert(result.deep_view() =~= collected);
                    } else {
                        let segment = SegmentView {
                            start: events_registry@.start(event),
                            end: events_registry@.end(event),
                        };
                        assert(result.deep_view() =~= collected.push(segment));
                        let left_event = events_registry@.opposite(event);
                        assert(!point_lt(
                            events_registry@.endpoints[events_registry@.opposites[left_event as int] as int],
                            events_registry@.endpoints[left_event as int],
                        ));
                        assert(collected.push(segment) + rest =~= collected + (seq![segment]
                            + rest));
                        if are_proper(segments.deep_view()) {
                            lemma_segment_of_right_event(
                                events_registry@,
                                segments.deep_view(),
                                event,
                            );
                        }
                    }
                    steps = (steps - 1) as nat;
                }
            },
        }
    }
}

/// Whether `first` and `second` number neighbouring segments of a closed
/// polyline of `count` segments.
pub open spec fn are_neighbours(first: usize, second: usize, count: nat) -> bool {
    first + 1 == second || second + 1 == first || (first == count - 1 && second == 0) || (second
        == count - 1 && first == 0)
}

/// The intersection is a single point that is an endpoint of both
/// segments, and these are neighbours.
pub open spec fn is_neighbours_touch(
    intersection: IntersectionView,
    endpoints: Seq<PointView>,
    count: nat,
) -> bool {
    &&& intersection.relation == Relation::Touch || intersection.relation == Relation::Cross
    &&& intersection.start == endpoints[2 * intersection.first_segment_id] || intersection.start
        == endpoints[2 * intersection.first_segment_id + 1]
    &&& intersection.start == endpoints[2 * intersection.second_segment_id] || intersection.start
        == endpoints[2 * intersection.second_segment_id + 1]
    &&& are_neighbours(intersection.first_segment_id, intersection.second_segment_id, count)
}

/// The sweep reports exactly `remaining` more intersections, and each is
/// a touch of neighbours among `count` segments.
#[verifier::opaque]
pub open spec fn reports_neighbours_touches(sweep: SweepView, remaining: nat, count: nat) -> bool
    decreases remaining,
{
    let (next_sweep, maybe_intersection) = sweep.next(sweep.budget());
    match maybe_intersection {
        None => remaining == 0,
        Some(intersection) => remaining > 0 && is_neighbours_touch(
            intersection,
            next_sweep.registry.endpoints,
            count,
        ) && reports_neighbours_touches(next_sweep, (remaining - 1) as nat, count),
    }
}

/// What the next intersection decides.
pub proof fn lemma_reports_step(sweep: SweepView, remaining: nat, count: nat)
    ensures
        reports_neighbours_touches(sweep, remaining, count) == match sweep.next(sweep.budget()).1 {
            None => remaining == 0,
            Some(intersection) => remaining > 0 && is_neighbours_touch(
                intersection,
                sweep.next(sweep.budget()).0.registry.endpoints,
                count,
            ) && reports_neighbours_touches(
                sweep.next(sweep.budget()).0,
                (remaining - 1) as nat,
                count,
            ),
        },
{
    reveal(reports_neighbours_touches);
}

/// A contour is valid when it has at least three segments, none of them
/// a single point, and a sweep over them reports as many intersections as
/// there are segments, each a touch of two neighbours at a common
/// endpoint.
pub open spec fn contour_is_valid(vertices: Seq<PointView>) -> bool {
    &&& vertices.len() >= 3
    &&& forall|index: int|
        0 <= index < vertices.len() ==> (#[trigger] contour_segments(vertices)[index]).start
            != contour_segments(vertices)[index].end
    &&& reports_neighbours_touches(
        initial_sweep_view(contour_segments(vertices)),
        vertices.len(),
        vertices.len(),
    )
}

/// Whether no segment of the contour is a single point.
fn are_segments_non_degenerate(segments: &Vec<Segment>) -> (result: bool)
    ensures
        result == (forall|index: int|
            0 <= index < segments.len() ==> (#[trigger] segments.deep_view()[index]).start
                != segments.deep_view()[index].end),
{
    let mut index: usize = 0;
    while index < segments.len()
        invariant
            index <= segments.len(),
            forall|other: int|
                0 <= other < index ==> (#[trigger] segments.deep_view()[other]).start
                    != segments.deep_view()[other].end,
        decreases segments.len() - index,
    {
        if segments[index].start().equals(&segments[index].end()) {
            proof {
                assert(segments.deep_view()[index as int].start == segments.deep_view()[index as int].end);
            }
            return false;
        }
        index += 1;
    }
    true
}

/// Whether the intersection is a touch of neighbours among `count`
/// segments at a common endpoint.
#[verifier::rlimit(40)]
fn is_touch_of_neighbours(sweep: &Sweep, intersection: &Intersection, count: usize) -> (result:
    bool)
    requires
        sweep@.wf(),
        intersection.first_segment_id < sweep@.registry.min_collinear_segments_ids.len(),
        intersection.second_segment_id < sweep@.registry.min_collinear_segments_ids.len(),
        count >= 1,
    ensures
        result == is_neighbours_touch(intersection@, sweep@.registry.endpoints, count as nat),
{
    let touches_at_vertices = (matches!(intersection.relation, Relation::Touch) || matches!(
        intersection.relation,
        Relation::Cross
    )) && (intersection.start.equals(sweep.get_segment_start(intersection.first_segment_id))
        || intersection.start.equals(sweep.get_segment_end(intersection.first_segment_id))) && (
    intersection.start.equals(sweep.get_segment_start(intersection.second_segment_id))
        || intersection.start.equals(sweep.get_segment_end(intersection.second_segment_id)));
    let neighbour_segments_intersection = (if intersection.first_segment_id
        < intersection.second_segment_id {
        intersection.second_segment_id - intersection.first_segment_id
    } else {
        intersection.first_segment_id - intersection.second_segment_id
    }) == 1 || (intersection.first_segment_id == count - 1 && intersection.second_segment_id == 0)
        || (intersection.second_segment_id == count - 1 && intersection.first_segment_id == 0);
    touches_at_vertices && neighbour_segments_intersection
}

/// Whether the sweep reports exactly `count` intersections, each a touch
/// of neighbours among `count` segments.
#[verifier::rlimit(40)]
fn reports_touches_of_neighbours(initial: Sweep, count: usize) -> (result: bool)
    requires
        initial@.wf(),
        initial@.registry.min_collinear_segments_ids.len() == count,
        count >= 1,
    ensures
        result == reports_neighbours_touches(initial@, count as nat, count as nat),
{
    let ghost expected = reports_neighbours_touches(initial@, count as nat, count as nat);
    let mut sweep = initial;
    let mut neighbour_segments_touches_count: usize = 0;
    loop
        invariant
            sweep@.wf(),
            expected == reports_neighbours_touches(initial@, count as nat, count as nat),
            count >= 1,
            sweep@.registry.min_collinear_segments_ids.len() == count,
            neighbour_segments_touches_count <= count,
            reports_neighbours_touches(
                sweep@,
                (count - neighbour_segments_touches_count) as nat,
                count as nat,
            ) == expected,
        decreases count - neighbour_segments_touches_count,
    {
        proof {
            lemma_reports_step(
                sweep@,
                (count - neighbour_segments_touches_count) as nat,
                count as nat,
            );
        }
        match sweep.next() {
            None => {
                return neighbour_segments_touches_count == count;
            },
            Some(intersection) => {
                if neighbour_segments_touches_count == count {
                    return false;
                }
                if !is_touch_of_neighbours(&sweep, &intersection, count) {
                    return false;
                }
                neighbour_segments_touches_count += 1;
            },
        }
    }
}

/// Whether the contour's segments meet only as neighbours do, at their
/// common vertices.
pub fn is_contour_valid(contour: &Contour) -> (result: bool)
    ensures
        result == contour_is_valid(contour@),
{
    let vertices = contour.vertices();
    if vertices.len() < 3 {
        return false;
    }
    let segments = contour.segments();
    if !are_segments_non_degenerate(&segments) {
        return false;
    }
    reports_touches_of_neighbours(Sweep::from(&segments), segments.len())
}

} // verus!
