//! The state of the sweep: the events' tables, the queue of pending events
//! and the sweep line.

use crate::bentley_ottmann::event::{is_left, is_left_event, Event};
use crate::bentley_ottmann::events_queue_key::{
    compare_events,
    events_comparison,
    lemma_events_comparison_reversed,
    lemma_events_comparison_transitive,
};
use crate::bentley_ottmann::sweep_line_key::{
    compare_sweep_line_keys,
    lemma_equal_position,
    lemma_same_position,
    sweep_line_comparison,
};
use crate::comparison::Comparison;
use crate::geometries::{point_lt, Point, PointView, Segment, SegmentView};
use crate::incidence::{
    is_on_line_of,
    lemma_endpoints_lie_on,
    lemma_lines_coincide,
    lemma_lines_share_points,
    lemma_on_line_of_line,
    lemma_part_of_part,
    lies_on,
};
use crate::operations::{
    crossing_point,
    intersect_crossing_segments,
    lemma_crossing_point_between,
    lemma_endpoints_collinear,
    lemma_orientation_of_reversed,
    orient,
    orientation_of,
    sorted_pair,
    to_sorted_pair,
};
use crate::oriented::Orientation;
use vstd::prelude::*;

verus! {

/// Mathematical state of an events registry.
pub struct RegistryView {
    /// The point of each event.
    pub endpoints: Seq<PointView>,
    /// The event at the other end of each event's segment.
    pub opposites: Seq<Event>,
    /// For each pair of events, the input segment that they descend from.
    pub segments_ids: Seq<usize>,
    /// For each input segment, a segment of its class of segments known to
    /// coincide somewhere, with an index not greater than its own.
    pub min_collinear_segments_ids: Seq<usize>,
    /// The pending events, in the order in which they were pushed. The
    /// next one is found by a scan for the first least event under the
    /// tables as they are then, so that no order has to be kept while
    /// divisions change the ends of pending events.
    pub events_queue: Seq<Event>,
    /// The left events of the segments crossed by the sweep line, from
    /// bottom to top. Every lookup is a scan of the whole line that
    /// compares each event with the one asked for, so that what it finds
    /// is fixed without the line being ordered. An order under the
    /// comparison of segments is not part of `wf`: the comparison is one
    /// only among segments that do not cross, which the sweep is there to
    /// bring about, and a division changes the segment of an event that
    /// is on the line.
    pub sweep_line: Seq<Event>,
}

/// The class representative reached from `segment_id` by following the
/// table until an entry refers to itself.
pub open spec fn collinear_root(table: Seq<usize>, segment_id: usize) -> usize
    decreases segment_id,
{
    if 0 <= segment_id < table.len() && table[segment_id as int] < segment_id {
        collinear_root(table, table[segment_id as int])
    } else {
        segment_id
    }
}

/// The number of entries followed from `segment_id` to its representative.
pub open spec fn collinear_hops(table: Seq<usize>, segment_id: usize) -> nat
    decreases segment_id,
{
    if 0 <= segment_id < table.len() && table[segment_id as int] < segment_id {
        1 + collinear_hops(table, table[segment_id as int])
    } else {
        0
    }
}

/// The table after the classes of two segments were united: the smaller
/// of the two representatives is written to both segments and to both
/// representatives.
pub open spec fn united(table: Seq<usize>, first_id: usize, second_id: usize) -> Seq<usize> {
    let first_root = collinear_root(table, first_id);
    let second_root = collinear_root(table, second_id);
    let min = if first_root <= second_root {
        first_root
    } else {
        second_root
    };
    table.update(first_id as int, min).update(second_id as int, min).update(
        first_root as int,
        min,
    ).update(second_root as int, min)
}

/// No entry refers to a segment after its own.
pub open spec fn is_descending(table: Seq<usize>) -> bool {
    forall|index: int| 0 <= index < table.len() ==> (#[trigger] table[index]) <= index
}

/// Every entry refers to an entry that refers to itself.
pub open spec fn is_flat(table: Seq<usize>) -> bool {
    forall|index: int|
        0 <= index < table.len() ==> table[(#[trigger] table[index]) as int] == table[index]
}

/// Following the table from a segment ends at an entry that refers to
/// itself, after no more entries than the segment's index.
pub proof fn lemma_collinear_root(table: Seq<usize>, segment_id: usize)
    requires
        is_descending(table),
        segment_id < table.len(),
    ensures
        collinear_root(table, segment_id) <= segment_id,
        table[collinear_root(table, segment_id) as int] == collinear_root(table, segment_id),
        collinear_hops(table, segment_id) <= segment_id,
    decreases segment_id,
{
    if table[segment_id as int] < segment_id {
        lemma_collinear_root(table, table[segment_id as int]);
    }
}

/// Uniting two classes keeps the table descending.
pub proof fn lemma_united_descending(table: Seq<usize>, first_id: usize, second_id: usize)
    requires
        is_descending(table),
        first_id < table.len(),
        second_id < table.len(),
    ensures
        is_descending(united(table, first_id, second_id)),
        united(table, first_id, second_id).len() == table.len(),
{
    lemma_collinear_root(table, first_id);
    lemma_collinear_root(table, second_id);
}

/// Uniting two classes gives the segments of both the smaller of their
/// representatives and leaves every other segment its own.
pub proof fn lemma_united_roots(
    table: Seq<usize>,
    first_id: usize,
    second_id: usize,
    segment_id: usize,
)
    requires
        is_descending(table),
        first_id < table.len(),
        second_id < table.len(),
        segment_id < table.len(),
    ensures
        collinear_root(united(table, first_id, second_id), segment_id) == ({
            let first_root = collinear_root(table, first_id);
            let second_root = collinear_root(table, second_id);
            let root = collinear_root(table, segment_id);
            if root == first_root || root == second_root {
                if first_root <= second_root {
                    first_root
                } else {
                    second_root
                }
            } else {
                root
            }
        }),
    decreases segment_id,
{
    let merged = united(table, first_id, second_id);
    let first_root = collinear_root(table, first_id);
    let second_root = collinear_root(table, second_id);
    let min = if first_root <= second_root {
        first_root
    } else {
        second_root
    };
    lemma_collinear_root(table, first_id);
    lemma_collinear_root(table, second_id);
    lemma_collinear_root(table, segment_id);
    assert(merged[min as int] == min);
    assert(collinear_root(merged, min) == min);
    assert(collinear_root(table, first_root) == first_root);
    assert(collinear_root(table, second_root) == second_root);
    if segment_id == first_id || segment_id == second_id || segment_id == first_root
        || segment_id == second_root {
        assert(merged[segment_id as int] == min);
    } else {
        let entry = table[segment_id as int];
        assert(merged[segment_id as int] == entry);
        assert(entry <= segment_id);
        if entry < segment_id {
            lemma_united_roots(table, first_id, second_id, entry);
        }
    }
}

/// After uniting the classes of two segments, two segments are in one
/// class exactly if they were before or each was in one of the two.
pub proof fn lemma_united_classes(
    table: Seq<usize>,
    first_id: usize,
    second_id: usize,
    segment_id: usize,
    other_segment_id: usize,
)
    requires
        is_descending(table),
        first_id < table.len(),
        second_id < table.len(),
        segment_id < table.len(),
        other_segment_id < table.len(),
    ensures
        collinear_root(united(table, first_id, second_id), segment_id) == collinear_root(
            united(table, first_id, second_id),
            other_segment_id,
        ) <==> {
            let first_root = collinear_root(table, first_id);
            let second_root = collinear_root(table, second_id);
            let root = collinear_root(table, segment_id);
            let other_root = collinear_root(table, other_segment_id);
            root == other_root || ((root == first_root || root == second_root) && (other_root
                == first_root || other_root == second_root))
        },
{
    lemma_united_roots(table, first_id, second_id, segment_id);
    lemma_united_roots(table, first_id, second_id, other_segment_id);
}

/// After two classes of a flat table were united, no segment is more
/// than two entries away from its representative.
pub proof fn lemma_united_hops(
    table: Seq<usize>,
    first_id: usize,
    second_id: usize,
    segment_id: usize,
)
    requires
        is_descending(table),
        is_flat(table),
        first_id < table.len(),
        second_id < table.len(),
        segment_id < table.len(),
    ensures
        collinear_hops(united(table, first_id, second_id), segment_id) <= 2,
{
    let merged = united(table, first_id, second_id);
    let first_min = table[first_id as int];
    let second_min = table[second_id as int];
    assert(first_min <= first_id && second_min <= second_id);
    assert(table[first_min as int] == first_min);
    assert(table[second_min as int] == second_min);
    assert(collinear_root(table, first_min) == first_min);
    assert(collinear_root(table, second_min) == second_min);
    assert(collinear_root(table, first_id) == first_min);
    assert(collinear_root(table, second_id) == second_min);
    let min = if first_min <= second_min {
        first_min
    } else {
        second_min
    };
    assert(merged[min as int] == min);
    assert(merged[first_id as int] == min);
    assert(merged[second_id as int] == min);
    assert(merged[first_min as int] == min);
    assert(merged[second_min as int] == min);
    assert(collinear_hops(merged, min) == 0);
    assert(collinear_hops(merged, first_min) <= 1);
    assert(collinear_hops(merged, second_min) <= 1);
    let next = merged[segment_id as int];
    if segment_id == first_id || segment_id == second_id || segment_id == first_min || segment_id
        == second_min {
        assert(next == min);
        assert(collinear_hops(merged, segment_id) <= 1);
    } else {
        assert(next == table[segment_id as int]);
        assert(table[next as int] == next);
        if next == first_min || next == second_min {
            assert(collinear_hops(merged, next) <= 1);
        } else {
            assert(merged[next as int] == next);
            assert(collinear_hops(merged, next) == 0);
        }
    }
}

/// In these tables of events the point of no left event comes after the
/// point of its opposite.
pub open spec fn tables_are_ordered(endpoints: Seq<PointView>, opposites: Seq<Event>) -> bool {
    forall|event: int|
        0 <= event < endpoints.len() && is_left(event as usize) ==> !point_lt(
            endpoints[opposites[event] as int],
            #[trigger] endpoints[event],
        )
}

/// In these tables of events the point of each left event comes before
/// the point of its opposite.
pub open spec fn tables_are_proper(endpoints: Seq<PointView>, opposites: Seq<Event>) -> bool {
    forall|event: int|
        0 <= event < endpoints.len() && is_left(event as usize) ==> point_lt(
            #[trigger] endpoints[event],
            endpoints[opposites[event] as int],
        )
}

/// In these tables of events the segment of each left event is a part of
/// the input segment that it descends from.
#[verifier::opaque]
pub open spec fn tables_hold_parts(
    endpoints: Seq<PointView>,
    opposites: Seq<Event>,
    segments_ids: Seq<usize>,
) -> bool {
    forall|event: int|
        0 <= event < endpoints.len() && is_left(event as usize) ==> {
            &&& lies_on(
                endpoints[2 * segments_ids[event / 2]],
                endpoints[2 * segments_ids[event / 2] + 1],
                #[trigger] endpoints[event],
            )
            &&& lies_on(
                endpoints[2 * segments_ids[event / 2]],
                endpoints[2 * segments_ids[event / 2] + 1],
                endpoints[opposites[event] as int],
            )
        }
}

/// In these tables each input segment lies on the line of the input
/// segment that its entry of the classes' table refers to.
#[verifier::opaque]
pub open spec fn tables_keep_lines(
    endpoints: Seq<PointView>,
    min_collinear_segments_ids: Seq<usize>,
) -> bool {
    forall|id: int|
        0 <= id < min_collinear_segments_ids.len() ==> is_on_line_of(
            endpoints[2 * (#[trigger] min_collinear_segments_ids[id])],
            endpoints[2 * min_collinear_segments_ids[id] + 1],
            endpoints[2 * id],
            endpoints[2 * id + 1],
        )
}

impl RegistryView {
    pub open spec fn is_event(self, event: Event) -> bool {
        event < self.endpoints.len()
    }

    pub open spec fn is_left_event(self, event: Event) -> bool {
        self.is_event(event) && is_left(event)
    }

    /// The tables agree in size, opposites pair a left event with a right
    /// one, provenance and classes refer to input segments, and the queue
    /// and the sweep line hold events.
    pub open spec fn wf(self) -> bool {
        &&& self.endpoints.len() == self.opposites.len()
        &&& self.endpoints.len() == 2 * self.segments_ids.len()
        &&& self.endpoints.len() <= usize::MAX
        &&& self.min_collinear_segments_ids.len() <= self.segments_ids.len()
        &&& forall|event: int|
            0 <= event < self.opposites.len() ==> {
                &&& (#[trigger] self.opposites[event]) < self.opposites.len()
                &&& self.opposites[self.opposites[event] as int] == event
                &&& is_left(self.opposites[event]) != is_left(event as usize)
            }
        &&& forall|index: int|
            0 <= index < self.segments_ids.len() ==> (#[trigger] self.segments_ids[index])
                < self.min_collinear_segments_ids.len()
        &&& forall|index: int|
            0 <= index < self.min_collinear_segments_ids.len() ==> (
            #[trigger] self.segments_ids[index]) == index
        &&& forall|index: int|
            0 <= index < self.min_collinear_segments_ids.len()
                ==> (#[trigger] self.min_collinear_segments_ids[index]) <= index
        &&& forall|index: int|
            0 <= index < self.events_queue.len() ==> self.is_event(
                #[trigger] self.events_queue[index],
            )
        &&& forall|index: int|
            0 <= index < self.sweep_line.len() ==> self.is_left_event(
                #[trigger] self.sweep_line[index],
            )
    }

    /// What bounds the number of events still to come: the room left in
    /// the tables plus the pending events.
    pub open spec fn potential(self) -> int {
        usize::MAX - self.endpoints.len() + self.events_queue.len()
    }

    /// The tables of events only grow: what an earlier state held of
    /// points and provenance is still there, and the input segments are
    /// the same.
    pub open spec fn extends(self, earlier: Self) -> bool {
        &&& earlier.endpoints.len() <= self.endpoints.len()
        &&& earlier.segments_ids.len() <= self.segments_ids.len()
        &&& self.min_collinear_segments_ids.len() == earlier.min_collinear_segments_ids.len()
        &&& forall|event: int|
            0 <= event < earlier.endpoints.len() ==> (#[trigger] self.endpoints[event])
                == earlier.endpoints[event]
        &&& forall|index: int|
            0 <= index < earlier.segments_ids.len() ==> (#[trigger] self.segments_ids[index])
                == earlier.segments_ids[index]
    }

    /// The point of no left event comes after the point of its opposite.
    pub open spec fn is_ordered(self) -> bool {
        tables_are_ordered(self.endpoints, self.opposites)
    }

    /// Each pending event was pending in the earlier state or did not
    /// exist then, and no pending event is repeated unless one was
    /// before.
    pub open spec fn queue_follows(self, earlier: Self) -> bool {
        &&& forall|index: int|
            0 <= index < self.events_queue.len() ==> earlier.events_queue.contains(
                #[trigger] self.events_queue[index],
            ) || self.events_queue[index] >= earlier.endpoints.len()
        &&& earlier.events_queue.no_duplicates() ==> self.events_queue.no_duplicates()
    }

    /// Each pending event that was not pending in the earlier state is at
    /// the first or at the second point.
    pub open spec fn is_pending_at(self, earlier: Self, first: PointView, second: PointView) -> bool {
        forall|index: int|
            0 <= index < self.events_queue.len() ==> earlier.events_queue.contains(
                #[trigger] self.events_queue[index],
            ) || self.point(self.events_queue[index]) == first || self.point(
                self.events_queue[index],
            ) == second
    }

    /// Each pending event that was not pending in the earlier state is at
    /// a point that is not before `bound`.
    pub open spec fn is_pending_from(self, earlier: Self, bound: PointView) -> bool {
        forall|index: int|
            0 <= index < self.events_queue.len() ==> earlier.events_queue.contains(
                #[trigger] self.events_queue[index],
            ) || !point_lt(self.point(self.events_queue[index]), bound)
    }

    /// No pending event is at a point before `bound`.
    pub open spec fn has_none_pending_before(self, bound: PointView) -> bool {
        forall|index: int|
            0 <= index < self.events_queue.len() ==> !point_lt(
                self.point(#[trigger] self.events_queue[index]),
                bound,
            )
    }

    /// The smaller endpoint of an input segment.
    pub open spec fn segment_start(self, segment_id: usize) -> PointView {
        self.endpoints[2 * segment_id]
    }

    /// The larger endpoint of an input segment.
    pub open spec fn segment_end(self, segment_id: usize) -> PointView {
        self.endpoints[2 * segment_id + 1]
    }

    /// `point` lies on the input segment that the left event descends
    /// from.
    pub open spec fn lies_on_segment_of(self, event: Event, point: PointView) -> bool {
        lies_on(
            self.segment_start(self.left_event_segment_id(event)),
            self.segment_end(self.left_event_segment_id(event)),
            point,
        )
    }

    /// The segment of each left event is a part of the input segment that
    /// it descends from.
    pub open spec fn are_parts(self) -> bool {
        tables_hold_parts(self.endpoints, self.opposites, self.segments_ids)
    }

    /// Each input segment lies on the line of the one that its entry of
    /// the classes' table refers to.
    pub open spec fn keeps_lines(self) -> bool {
        tables_keep_lines(self.endpoints, self.min_collinear_segments_ids)
    }

    /// The second input segment lies on the line of the first.
    pub open spec fn is_segment_on_line_of(self, first_id: usize, second_id: usize) -> bool {
        is_on_line_of(
            self.segment_start(first_id),
            self.segment_end(first_id),
            self.segment_start(second_id),
            self.segment_end(second_id),
        )
    }

    /// No segment is a single point, each is a part of its input segment,
    /// and the classes are of input segments on one line.
    pub open spec fn is_sound(self) -> bool {
        self.is_proper() && self.are_parts() && self.keeps_lines()
    }

    /// Each left event's point comes before the point of its opposite: no
    /// segment is a single point.
    pub open spec fn is_proper(self) -> bool {
        tables_are_proper(self.endpoints, self.opposites)
    }

    /// `point` comes after the point of the left event and before the
    /// point of its opposite.
    pub open spec fn is_strictly_between(self, event: Event, point: PointView) -> bool {
        point_lt(self.point(event), point) && point_lt(point, self.opposite_point(event))
    }

    /// The segments of both left events have the same start and the same
    /// end: the events are at one point, and so are their opposites.
    pub open spec fn are_coincident(self, first: Event, second: Event) -> bool {
        self.point(first) == self.point(second) && self.opposite_point(first) == self.opposite_point(second)
    }

    /// `point` comes neither before the point of the left event nor
    /// after the point of its opposite.
    pub open spec fn is_between(self, event: Event, point: PointView) -> bool {
        !point_lt(point, self.point(event)) && !point_lt(self.opposite_point(event), point)
    }

    /// The point of the event.
    pub open spec fn point(self, event: Event) -> PointView {
        self.endpoints[event as int]
    }

    /// The smaller endpoint of the event's segment, as long as the events
    /// are ordered: the point of a left event, and the point of the
    /// opposite of a right one.
    pub open spec fn start(self, event: Event) -> PointView {
        if is_left(event) {
            self.point(event)
        } else {
            self.opposite_point(event)
        }
    }

    /// The larger endpoint of the event's segment, as long as the events
    /// are ordered: the point of a right event, and the point of the
    /// opposite of a left one.
    pub open spec fn end(self, event: Event) -> PointView {
        if is_left(event) {
            self.opposite_point(event)
        } else {
            self.point(event)
        }
    }

    pub open spec fn opposite(self, event: Event) -> Event {
        self.opposites[event as int]
    }

    /// The point of the event at the other end of the event's segment.
    pub open spec fn opposite_point(self, event: Event) -> PointView {
        self.endpoints[self.opposites[event as int] as int]
    }

    pub open spec fn left_event_segment_id(self, event: Event) -> usize {
        self.segments_ids[event as int / 2]
    }

    pub open spec fn event_segment_id(self, event: Event) -> usize {
        if is_left(event) {
            self.left_event_segment_id(event)
        } else {
            self.left_event_segment_id(self.opposite(event))
        }
    }

    pub open spec fn min_collinear_segment_id(self, segment_id: usize) -> usize {
        collinear_root(self.min_collinear_segments_ids, segment_id)
    }

    /// Whether two input segments are in one class once the classes of
    /// the segments of two left events are united: they are in one class
    /// already, or each is in the class of one of the two.
    pub open spec fn are_united_by(
        self,
        first: Event,
        second: Event,
        segment_id: usize,
        other_segment_id: usize,
    ) -> bool {
        let first_id = self.left_event_segment_id(first);
        let second_id = self.left_event_segment_id(second);
        ||| self.are_collinear(segment_id, other_segment_id)
        ||| (self.are_collinear(segment_id, first_id) || self.are_collinear(segment_id, second_id))
            && (self.are_collinear(other_segment_id, first_id) || self.are_collinear(
            other_segment_id,
            second_id,
        ))
    }

    pub open spec fn are_collinear(self, segment_id: usize, other_segment_id: usize) -> bool {
        self.min_collinear_segment_id(segment_id) == self.min_collinear_segment_id(
            other_segment_id,
        )
    }

    pub open spec fn queue_comparison(self, first_event: Event, second_event: Event) -> Comparison {
        events_comparison(self.endpoints, self.opposites, first_event, second_event)
    }

    pub open spec fn line_comparison(self, first_event: Event, second_event: Event) -> Comparison {
        sweep_line_comparison(self.endpoints, self.opposites, first_event, second_event)
    }

    /// Index of the first least event among the first `count` of the queue.
    pub open spec fn min_index(self, count: nat) -> int
        decreases count,
    {
        if count <= 1 {
            0
        } else {
            let candidate = self.min_index((count - 1) as nat);
            if self.queue_comparison(self.events_queue[count - 1], self.events_queue[candidate])
                == Comparison::Less {
                count - 1
            } else {
                candidate
            }
        }
    }

    pub open spec fn push(self, event: Event) -> Self {
        RegistryView { events_queue: self.events_queue.push(event), ..self }
    }

    /// The first least pending event.
    pub open spec fn peek(self) -> Event {
        self.events_queue[self.min_index(self.events_queue.len())]
    }

    /// The state without the first least pending event.
    pub open spec fn pop(self) -> Self {
        RegistryView {
            events_queue: self.events_queue.remove(self.min_index(self.events_queue.len())),
            ..self
        }
    }

    /// Index of the first event of the sweep line, from `from` on, whose
    /// segment compares as `outcome` with that of `event`; the line's length
    /// if there is none.
    pub open spec fn first_index(self, event: Event, outcome: Comparison, from: int) -> int
        decreases self.sweep_line.len() - from,
    {
        if from < 0 || from >= self.sweep_line.len() {
            self.sweep_line.len() as int
        } else if self.line_comparison(self.sweep_line[from], event) == outcome {
            from
        } else {
            self.first_index(event, outcome, from + 1)
        }
    }

    /// Index of the last event of the sweep line, among the first `count`,
    /// whose segment lies below that of `event`; `-1` if there is none.
    pub open spec fn last_below_index(self, event: Event, count: int) -> int
        decreases count,
    {
        if count <= 0 || count > self.sweep_line.len() {
            -1
        } else if self.line_comparison(self.sweep_line[count - 1], event) == Comparison::Less {
            count - 1
        } else {
            self.last_below_index(event, count - 1)
        }
    }

    /// The first event of the sweep line whose segment coincides with that
    /// of `event`.
    pub open spec fn find(self, event: Event) -> Option<Event> {
        let index = self.first_index(event, Comparison::Equal, 0);
        if index < self.sweep_line.len() {
            Some(self.sweep_line[index])
        } else {
            None
        }
    }

    /// The lowest event of the sweep line whose segment lies above that of
    /// `event`.
    pub open spec fn above(self, event: Event) -> Option<Event> {
        let index = self.first_index(event, Comparison::Greater, 0);
        if index < self.sweep_line.len() {
            Some(self.sweep_line[index])
        } else {
            None
        }
    }

    /// The highest event of the sweep line whose segment lies below that of
    /// `event`.
    pub open spec fn below(self, event: Event) -> Option<Event> {
        let index = self.last_below_index(event, self.sweep_line.len() as int);
        if index >= 0 {
            Some(self.sweep_line[index])
        } else {
            None
        }
    }

    /// The place of `event` on the sweep line: that of the lowest event
    /// above it, or the end of the line.
    pub open spec fn insert_place(self, event: Event) -> int {
        self.first_index(event, Comparison::Greater, 0)
    }

    /// The sweep line with `event` put below the lowest event above it,
    /// unless an event with a coincident segment is there already.
    pub open spec fn insert(self, event: Event) -> Self {
        if self.find(event) is Some {
            self
        } else {
            RegistryView {
                sweep_line: self.sweep_line.insert(self.insert_place(event), event),
                ..self
            }
        }
    }

    /// The sweep line without the first event whose segment coincides with
    /// that of `event`.
    pub open spec fn remove(self, event: Event) -> Self {
        let index = self.first_index(event, Comparison::Equal, 0);
        if index < self.sweep_line.len() {
            RegistryView { sweep_line: self.sweep_line.remove(index), ..self }
        } else {
            self
        }
    }

    /// The event that `divide` creates at the division point as the start
    /// of the part up to the old end.
    pub open spec fn next_left_event(self) -> Event {
        self.endpoints.len() as usize
    }

    /// The event that `divide` creates at the division point as the end of
    /// the part from the old start.
    pub open spec fn next_right_event(self) -> Event {
        (self.endpoints.len() + 1) as usize
    }

    /// Splits the segment of the left event `event` at `mid_point`: two
    /// events are appended there, the old event's segment now ends at the
    /// new right event and the new left event's segment ends where the
    /// old one did.
    pub open spec fn divide(self, event: Event, mid_point: PointView) -> Self {
        let opposite_event = self.opposite(event);
        RegistryView {
            endpoints: self.endpoints.push(mid_point).push(mid_point),
            opposites: self.opposites.push(opposite_event).update(
                opposite_event as int,
                self.next_left_event(),
            ).push(event).update(event as int, self.next_right_event()),
            segments_ids: self.segments_ids.push(self.left_event_segment_id(event)),
            ..self
        }
    }

    pub open spec fn merge_equal_segment_events(self, first: Event, second: Event) -> Self {
        RegistryView {
            min_collinear_segments_ids: united(
                self.min_collinear_segments_ids,
                self.left_event_segment_id(first),
                self.left_event_segment_id(second),
            ),
            ..self
        }
    }

    pub open spec fn divide_event_by_midpoint(self, event: Event, point: PointView) -> Self {
        self.divide(event, point).push(self.next_right_event()).push(self.next_left_event())
    }

    /// The lowest event above `event`, if its segment starts where that of
    /// `event` does and ends at `point`.
    pub open spec fn coincident_prefix_above(self, event: Event, point: PointView) -> Option<
        Event,
    > {
        match self.above(event) {
            Some(above_event) => if self.point(above_event) == self.point(event) && self.opposite_point(
                above_event,
            ) == point {
                Some(above_event)
            } else {
                None
            },
            None => None,
        }
    }

    pub open spec fn divide_event_by_midpoint_checking_above(
        self,
        event: Event,
        point: PointView,
    ) -> Self {
        match self.coincident_prefix_above(event, point) {
            Some(above_event) => self.remove(above_event).divide_event_by_midpoint(
                event,
                point,
            ).merge_equal_segment_events(event, above_event),
            None => self.divide_event_by_midpoint(event, point),
        }
    }

    pub open spec fn divide_overlapping_events(
        self,
        min_start_event: Event,
        max_start_event: Event,
        max_start: PointView,
        min_end: PointView,
    ) -> Self {
        let divided = self.divide_event_by_midpoint(max_start_event, min_end);
        divided.divide(min_start_event, max_start).push(
            divided.next_right_event(),
        ).merge_equal_segment_events(max_start_event, divided.next_left_event())
    }

    pub open spec fn divide_event_by_mid_segment_event_endpoints(
        self,
        event: Event,
        mid_segment_event: Event,
        mid_segment_event_start: PointView,
        mid_segment_event_end: PointView,
    ) -> Self {
        let divided = self.divide_event_by_midpoint(event, mid_segment_event_end);
        divided.divide(event, mid_segment_event_start).push(
            divided.next_right_event(),
        ).merge_equal_segment_events(mid_segment_event, divided.next_left_event())
    }

    /// Both segments start at one point and lie on one line: the longer one
    /// leaves the sweep line and is cut to the length of the shorter one,
    /// its rest is pushed, and the two classes are united.
    pub open spec fn divide_at_common_start(self, below_event: Event, event: Event) -> Self {
        let (max_end_event, min_end_event) = if point_lt(self.opposite_point(event), self.opposite_point(below_event)) {
            (below_event, event)
        } else {
            (event, below_event)
        };
        let removed = self.remove(max_end_event);
        removed.divide(max_end_event, removed.opposite_point(min_end_event)).push(
            removed.next_left_event(),
        ).merge_equal_segment_events(event, below_event)
    }

    /// Both segments end at one point and lie on one line: the one that
    /// starts first is cut at the start of the other, the new end of its
    /// front part is pushed, and the classes of the two back parts are
    /// united.
    pub open spec fn divide_at_common_end(self, below_event: Event, event: Event) -> Self {
        let (max_start_event, min_start_event) = if point_lt(
            self.point(event),
            self.point(below_event),
        ) {
            (below_event, event)
        } else {
            (event, below_event)
        };
        self.divide(min_start_event, self.point(max_start_event)).push(
            self.next_right_event(),
        ).merge_equal_segment_events(max_start_event, self.next_left_event())
    }

    /// The segments of two left events, the first below the second on the
    /// sweep line, are cut where they meet, so that afterwards they share
    /// at most endpoints or a whole part.
    pub open spec fn detect_intersection(self, below_event: Event, event: Event) -> Self {
        let event_start = self.point(event);
        let event_end = self.opposite_point(event);
        let below_event_start = self.point(below_event);
        let below_event_end = self.opposite_point(below_event);
        let event_start_orientation = orientation_of(
            below_event_end,
            below_event_start,
            event_start,
        );
        let event_end_orientation = orientation_of(below_event_end, below_event_start, event_end);
        if event_start_orientation != Orientation::Collinear && event_end_orientation
            != Orientation::Collinear {
            if event_start_orientation != event_end_orientation {
                let below_event_start_orientation = orientation_of(
                    event_start,
                    event_end,
                    below_event_start,
                );
                let below_event_end_orientation = orientation_of(
                    event_start,
                    event_end,
                    below_event_end,
                );
                if below_event_start_orientation != Orientation::Collinear
                    && below_event_end_orientation != Orientation::Collinear {
                    if below_event_start_orientation != below_event_end_orientation {
                        let point = crossing_point(
                            event_start,
                            event_end,
                            below_event_start,
                            below_event_end,
                        );
                        self.divide_event_by_midpoint(
                            below_event,
                            point,
                        ).divide_event_by_midpoint_checking_above(event, point)
                    } else {
                        self
                    }
                } else if below_event_start_orientation != Orientation::Collinear {
                    if point_lt(event_start, below_event_end) && point_lt(
                        below_event_end,
                        event_end,
                    ) {
                        self.divide_event_by_midpoint_checking_above(event, below_event_end)
                    } else {
                        self
                    }
                } else if point_lt(event_start, below_event_start) && point_lt(
                    below_event_start,
                    event_end,
                ) {
                    self.divide_event_by_midpoint_checking_above(event, below_event_start)
                } else {
                    self
                }
            } else {
                self
            }
        } else if event_end_orientation != Orientation::Collinear {
            if point_lt(below_event_start, event_start) && point_lt(event_start, below_event_end) {
                self.divide_event_by_midpoint(below_event, event_start)
            } else {
                self
            }
        } else if event_start_orientation != Orientation::Collinear {
            if point_lt(below_event_start, event_end) && point_lt(event_end, below_event_end) {
                self.divide_event_by_midpoint(below_event, event_end)
            } else {
                self
            }
        } else if event_start == below_event_start {
            self.divide_at_common_start(below_event, event)
        } else if event_end == below_event_end {
            self.divide_at_common_end(below_event, event)
        } else if point_lt(below_event_start, event_start) && point_lt(
            event_start,
            below_event_end,
        ) {
            if point_lt(event_end, below_event_end) {
                self.divide_event_by_mid_segment_event_endpoints(
                    below_event,
                    event,
                    event_start,
                    event_end,
                )
            } else {
                self.divide_overlapping_events(below_event, event, event_start, below_event_end)
            }
        } else if point_lt(event_start, below_event_start) && point_lt(
            below_event_start,
            event_end,
        ) {
            if point_lt(below_event_end, event_end) {
                self.divide_event_by_mid_segment_event_endpoints(
                    event,
                    below_event,
                    below_event_start,
                    below_event_end,
                )
            } else {
                self.divide_overlapping_events(event, below_event, below_event_start, event_end)
            }
        } else {
            self
        }
    }

    /// The state after a left event was taken from the queue, and whether
    /// the event is new to the sweep line. An event whose segment is on
    /// the sweep line already only has its class united with that one's;
    /// another one enters the sweep line and is cut against its neighbours.
    pub open spec fn process_left(self, event: Event) -> (Self, bool) {
        match self.find(event) {
            Some(equal_segment_event) => (
                self.merge_equal_segment_events(equal_segment_event, event),
                false,
            ),
            None => {
                let inserted = self.insert(event);
                let below_checked = match inserted.below(event) {
                    Some(below_event) => inserted.detect_intersection(below_event, event),
                    None => inserted,
                };
                let above_checked = match below_checked.above(event) {
                    Some(above_event) => below_checked.detect_intersection(event, above_event),
                    None => below_checked,
                };
                (above_checked, true)
            },
        }
    }

    /// The state after a right event was taken from the queue, and whether
    /// its segment was on the sweep line. The segment leaves the sweep
    /// line, and the neighbours that become adjacent are cut against each
    /// other.
    pub open spec fn process_right(self, event: Event) -> (Self, bool) {
        let event_opposite = self.opposite(event);
        match self.find(event_opposite) {
            Some(equal_segment_event) => {
                let removed = self.remove(equal_segment_event);
                let detected = match (
                    self.above(equal_segment_event),
                    self.below(equal_segment_event),
                ) {
                    (Some(above_event), Some(below_event)) => removed.detect_intersection(
                        below_event,
                        above_event,
                    ),
                    _ => removed,
                };
                (
                    if equal_segment_event != event_opposite {
                        detected.merge_equal_segment_events(event_opposite, equal_segment_event)
                    } else {
                        detected
                    },
                    true,
                )
            },
            None => (self, false),
        }
    }

    /// The state after the first least pending event was taken and
    /// processed, and whether the event's segment took part in the sweep.
    pub open spec fn process_next(self) -> (Self, bool) {
        let event = self.peek();
        if is_left(event) {
            self.pop().process_left(event)
        } else {
            self.pop().process_right(event)
        }
    }

    /// The next event that is handed out, and the state after it.
    /// Without `unique` every pending event is handed out in turn; with it,
    /// a left event whose segment is on the sweep line already is passed
    /// over, and so is a right event whose segment is not there.
    pub open spec fn next(self, unique: bool) -> (Self, Option<Event>)
        decreases self.events_queue.len(),
    {
        if self.events_queue.len() == 0 {
            (self, None)
        } else {
            let (processed, took_part) = self.process_next();
            if unique && !took_part {
                proof {
                    self.lemma_passed_over();
                }
                processed.next(unique)
            } else {
                (processed, Some(self.peek()))
            }
        }
    }
}

impl RegistryView {
    /// The index of the first least pending event is one of the queue.
    pub proof fn lemma_min_index_in_range(self, count: nat)
        requires
            1 <= count <= self.events_queue.len(),
        ensures
            0 <= self.min_index(count) < count,
        decreases count,
    {
        if count > 1 {
            self.lemma_min_index_in_range((count - 1) as nat);
        }
    }

    /// No pending event among the first `count` comes before the one at
    /// `min_index`, and none before that index is as small.
    pub proof fn lemma_min_index_is_least(self, count: nat, index: int)
        requires
            1 <= count <= self.events_queue.len(),
            0 <= index < count,
        ensures
            self.queue_comparison(
                self.events_queue[self.min_index(count)],
                self.events_queue[index],
            ) != Comparison::Greater,
            index < self.min_index(count) ==> self.queue_comparison(
                self.events_queue[self.min_index(count)],
                self.events_queue[index],
            ) == Comparison::Less,
        decreases count,
    {
        if count > 1 {
            let previous = self.min_index((count - 1) as nat);
            let least = self.min_index(count);
            self.lemma_min_index_in_range((count - 1) as nat);
            lemma_events_comparison_reversed(
                self.endpoints,
                self.opposites,
                self.events_queue[count - 1],
                self.events_queue[previous],
            );
            if index < count - 1 {
                self.lemma_min_index_is_least((count - 1) as nat, index);
                if least != previous {
                    lemma_events_comparison_reversed(
                        self.endpoints,
                        self.opposites,
                        self.events_queue[least],
                        self.events_queue[index],
                    );
                    lemma_events_comparison_reversed(
                        self.endpoints,
                        self.opposites,
                        self.events_queue[previous],
                        self.events_queue[index],
                    );
                    lemma_events_comparison_transitive(
                        self.endpoints,
                        self.opposites,
                        self.events_queue[least],
                        self.events_queue[previous],
                        self.events_queue[index],
                    );
                }
            }
        }
    }

    /// The start of an event's segment is not after its end while the
    /// events are ordered, and before it while no segment is a single
    /// point.
    pub proof fn lemma_start_before_end(self, event: Event)
        requires
            self.wf(),
            self.is_event(event),
        ensures
            self.is_ordered() ==> !point_lt(self.end(event), self.start(event)),
            self.is_proper() ==> point_lt(self.start(event), self.end(event)),
    {
        self.lemma_opposites_pair(event);
        let left_event = if is_left(event) {
            event
        } else {
            self.opposite(event)
        };
        if self.is_ordered() {
            assert(!point_lt(
                self.endpoints[self.opposites[left_event as int] as int],
                self.endpoints[left_event as int],
            ));
        }
        if self.is_proper() {
            assert(point_lt(
                self.endpoints[left_event as int],
                self.endpoints[self.opposites[left_event as int] as int],
            ));
        }
    }

    /// Each event is the opposite of its opposite, and of the two one is
    /// a left event and one a right event.
    pub proof fn lemma_opposites_pair(self, event: Event)
        requires
            self.wf(),
            self.is_event(event),
        ensures
            self.is_event(self.opposite(event)),
            self.opposite(self.opposite(event)) == event,
            is_left(event) != is_left(self.opposite(event)),
    {
        assert(self.opposites[event as int] == self.opposite(event));
    }

    /// The event that is taken next comes after no pending event.
    pub proof fn lemma_peek_is_least(self, index: int)
        requires
            0 <= index < self.events_queue.len(),
        ensures
            self.queue_comparison(self.peek(), self.events_queue[index]) != Comparison::Greater,
    {
        self.lemma_min_index_is_least(self.events_queue.len(), index);
    }

    /// After the first least pending event was taken and only events at
    /// points not before its point became pending, no pending event is at
    /// a point before its point.
    pub proof fn lemma_none_pending_before(self, after: Self)
        requires
            self.wf(),
            self.events_queue.len() > 0,
            after.extends(self),
            after.is_pending_from(self.pop(), self.point(self.peek())),
        ensures
            after.has_none_pending_before(after.point(self.peek())),
    {
        let event = self.peek();
        let taken = self.pop();
        self.lemma_pop_wf();
        self.lemma_queue_follows_pop();
        assert forall|index: int| 0 <= index < after.events_queue.len() implies !point_lt(
            after.point(#[trigger] after.events_queue[index]),
            after.point(event),
        ) by {
            let pending = after.events_queue[index];
            if taken.events_queue.contains(pending) {
                let at = choose|at: int|
                    0 <= at < taken.events_queue.len() && taken.events_queue[at] == pending;
                assert(taken.is_event(taken.events_queue[at]));
                assert(self.events_queue.contains(taken.events_queue[at])) by {
                    reveal_with_fuel(RegistryView::min_index, 1);
                    let taken_index = self.min_index(self.events_queue.len());
                    self.lemma_min_index_in_range(self.events_queue.len());
                    let source = if at < taken_index {
                        at
                    } else {
                        at + 1
                    };
                    assert(taken.events_queue[at] == self.events_queue[source]);
                }
                let source = choose|source: int|
                    0 <= source < self.events_queue.len() && self.events_queue[source] == pending;
                self.lemma_peek_is_least(source);
                assert(after.endpoints[pending as int] == self.endpoints[pending as int]);
                assert(after.endpoints[event as int] == self.endpoints[event as int]);
            } else {
                assert(after.endpoints[event as int] == self.endpoints[event as int]);
            }
        }
    }

    /// An event that is passed over leaves the queue one event shorter.
    pub proof fn lemma_passed_over(self)
        requires
            self.events_queue.len() > 0,
            !self.process_next().1,
        ensures
            self.process_next().0.events_queue.len() == self.events_queue.len() - 1,
    {
        self.lemma_min_index_in_range(self.events_queue.len());
    }

    /// No event from `from` on up to the one found compares as asked for.
    pub proof fn lemma_first_index_is_first(
        self,
        event: Event,
        outcome: Comparison,
        from: int,
        index: int,
    )
        requires
            0 <= from <= index < self.first_index(event, outcome, from),
            index < self.sweep_line.len(),
        ensures
            self.line_comparison(self.sweep_line[index], event) != outcome,
        decreases self.sweep_line.len() - from,
    {
        if from < index {
            self.lemma_first_index_is_first(event, outcome, from + 1, index);
        }
    }

    /// Where an event is put on the sweep line, every event before it
    /// lies below it, and the event after it, if there is one, lies
    /// above it.
    pub proof fn lemma_insert_place(self, event: Event, index: int)
        requires
            self.find(event) is None,
            0 <= index < self.sweep_line.len(),
        ensures
            index < self.first_index(event, Comparison::Greater, 0) ==> self.line_comparison(
                self.sweep_line[index],
                event,
            ) == Comparison::Less,
            index == self.first_index(event, Comparison::Greater, 0) ==> self.line_comparison(
                self.sweep_line[index],
                event,
            ) == Comparison::Greater,
    {
        self.lemma_first_index_in_range(event, Comparison::Equal, 0);
        self.lemma_first_index_in_range(event, Comparison::Greater, 0);
        self.lemma_first_index_is_first(event, Comparison::Equal, 0, index);
        if index < self.first_index(event, Comparison::Greater, 0) {
            self.lemma_first_index_is_first(event, Comparison::Greater, 0, index);
        }
        if index == self.first_index(event, Comparison::Greater, 0) {
            self.lemma_first_index_matches(event, Comparison::Greater, 0);
        }
    }

    /// The event found compares as asked for.
    pub proof fn lemma_first_index_matches(self, event: Event, outcome: Comparison, from: int)
        requires
            0 <= from <= self.sweep_line.len(),
            self.first_index(event, outcome, from) < self.sweep_line.len(),
        ensures
            self.line_comparison(
                self.sweep_line[self.first_index(event, outcome, from)],
                event,
            ) == outcome,
        decreases self.sweep_line.len() - from,
    {
        if from < self.sweep_line.len() && self.line_comparison(self.sweep_line[from], event)
            != outcome {
            self.lemma_first_index_matches(event, outcome, from + 1);
        }
    }

    /// The event found below lies below.
    pub proof fn lemma_last_below_index_matches(self, event: Event, count: int)
        requires
            0 <= count <= self.sweep_line.len(),
            self.last_below_index(event, count) >= 0,
        ensures
            self.last_below_index(event, count) < count,
            self.line_comparison(self.sweep_line[self.last_below_index(event, count)], event)
                == Comparison::Less,
        decreases count,
    {
        if count > 0 && self.line_comparison(self.sweep_line[count - 1], event)
            != Comparison::Less {
            self.lemma_last_below_index_matches(event, count - 1);
        }
    }

    /// Events whose segments coincide compare equal on the sweep line.
    pub proof fn lemma_coincident_compare_equal(self, first: Event, second: Event)
        requires
            self.are_coincident(first, second),
        ensures
            self.line_comparison(first, second) == Comparison::Equal,
    {
        lemma_same_position(self.point(first), self.opposite_point(first));
    }

    pub proof fn lemma_first_index_in_range(self, event: Event, outcome: Comparison, from: int)
        requires
            0 <= from <= self.sweep_line.len(),
        ensures
            from <= self.first_index(event, outcome, from) <= self.sweep_line.len(),
        decreases self.sweep_line.len() - from,
    {
        if from < self.sweep_line.len() && self.line_comparison(self.sweep_line[from], event)
            != outcome {
            self.lemma_first_index_in_range(event, outcome, from + 1);
        }
    }

    pub proof fn lemma_push_wf(self, event: Event)
        requires
            self.wf(),
            self.is_event(event),
        ensures
            self.push(event).wf(),
            self.push(event).potential() == self.potential() + 1,
    {
    }

    pub proof fn lemma_pop_wf(self)
        requires
            self.wf(),
            self.events_queue.len() > 0,
        ensures
            self.pop().wf(),
            self.is_event(self.peek()),
            self.pop().potential() == self.potential() - 1,
            self.pop().events_queue.len() == self.events_queue.len() - 1,
    {
        self.lemma_min_index_in_range(self.events_queue.len());
    }

    pub proof fn lemma_insert_wf(self, event: Event)
        requires
            self.wf(),
            self.is_left_event(event),
        ensures
            self.insert(event).wf(),
            self.insert(event).potential() == self.potential(),
    {
        self.lemma_first_index_in_range(event, Comparison::Greater, 0);
    }

    pub proof fn lemma_remove_wf(self, event: Event)
        requires
            self.wf(),
        ensures
            self.remove(event).wf(),
            self.remove(event).potential() == self.potential(),
    {
        self.lemma_first_index_in_range(event, Comparison::Equal, 0);
    }

    /// Dividing keeps the tables well formed as long as they have room for
    /// two more events.
    #[verifier::rlimit(40)]
    pub proof fn lemma_divide_wf(self, event: Event, mid_point: PointView)
        requires
            self.wf(),
            self.is_left_event(event),
            self.endpoints.len() + 2 <= usize::MAX,
        ensures
            self.divide(event, mid_point).wf(),
            self.divide(event, mid_point).potential() == self.potential() - 2,
            self.divide(event, mid_point).is_left_event(self.next_left_event()),
            self.divide(event, mid_point).is_event(self.next_right_event()),
            !is_left(self.next_right_event()),
    {
        let divided = self.divide(event, mid_point);
        let opposite_event = self.opposite(event);
        assert(self.opposites[event as int] == opposite_event);
        assert(self.opposites[opposite_event as int] == event);
        assert forall|other: int| 0 <= other < divided.opposites.len() implies {
            &&& (#[trigger] divided.opposites[other]) < divided.opposites.len()
            &&& divided.opposites[divided.opposites[other] as int] == other
            &&& is_left(divided.opposites[other]) != is_left(other as usize)
        } by {
            if other < self.opposites.len() && other != event && other != opposite_event {
                assert(divided.opposites[other] == self.opposites[other]);
                assert(self.opposites[self.opposites[other] as int] == other);
            }
        }
    }

    /// Dividing a segment at a point between its ends keeps the events
    /// ordered, and changes the ends of no other left event's segment.
    #[verifier::rlimit(40)]
    pub proof fn lemma_divide_ordered(self, event: Event, mid_point: PointView)
        requires
            self.wf(),
            self.is_left_event(event),
            self.endpoints.len() + 2 <= usize::MAX,
        ensures
            self.is_ordered() && self.is_between(event, mid_point) ==> self.divide(
                event,
                mid_point,
            ).is_ordered(),
            self.is_proper() && self.is_strictly_between(event, mid_point) ==> self.divide(
                event,
                mid_point,
            ).is_proper(),
            forall|other: Event|
                self.is_left_event(other) && other != event ==> self.divide(event, mid_point).point(
                    other,
                ) == self.point(other) && self.divide(event, mid_point).opposite_point(other) == self.opposite_point(
                    other,
                ),
            self.divide(event, mid_point).point(event) == self.point(event),
            self.divide(event, mid_point).opposite_point(event) == mid_point,
            self.divide(event, mid_point).point(self.next_left_event()) == mid_point,
            self.divide(event, mid_point).opposite_point(self.next_left_event()) == self.opposite_point(event),
    {
        let divided = self.divide(event, mid_point);
        let opposite_event = self.opposite(event);
        assert(self.opposites[event as int] == opposite_event);
        assert(self.opposites[opposite_event as int] == event);
        assert forall|other: Event| self.is_left_event(other) && other != event implies divided.point(
            other,
        ) == self.point(other) && divided.opposite_point(other) == self.opposite_point(other) by {
            assert(self.opposites[self.opposites[other as int] as int] == other);
            assert(divided.opposites[other as int] == self.opposites[other as int]);
        }
        if self.is_proper() && self.is_strictly_between(event, mid_point) {
            assert forall|other: int|
                0 <= other < divided.endpoints.len() && is_left(other as usize) implies point_lt(
                #[trigger] divided.endpoints[other],
                divided.endpoints[divided.opposites[other] as int],
            ) by {
                if other < self.endpoints.len() && other != event {
                    assert(divided.point(other as usize) == self.point(other as usize));
                    assert(divided.opposite_point(other as usize) == self.opposite_point(other as usize));
                    assert(point_lt(
                        self.endpoints[other],
                        self.endpoints[self.opposites[other] as int],
                    ));
                } else if other == event {
                    assert(point_lt(
                        self.endpoints[other],
                        self.endpoints[self.opposites[other] as int],
                    ));
                }
            }
        }
        if self.is_ordered() && self.is_between(event, mid_point) {
            assert forall|other: int|
                0 <= other < divided.endpoints.len() && is_left(other as usize) implies !point_lt(
                divided.endpoints[divided.opposites[other] as int],
                #[trigger] divided.endpoints[other],
            ) by {
                if other < self.endpoints.len() && other != event {
                    assert(divided.point(other as usize) == self.point(other as usize));
                    assert(divided.opposite_point(other as usize) == self.opposite_point(other as usize));
                    assert(!point_lt(
                        self.endpoints[self.opposites[other] as int],
                        self.endpoints[other],
                    ));
                } else if other == event {
                    assert(!point_lt(
                        self.endpoints[self.opposites[other] as int],
                        self.endpoints[other],
                    ));
                }
            }
        }
    }

    /// Both ends of a left event's segment lie on the input segment that
    /// it descends from.
    pub proof fn lemma_parts_of(self, event: Event)
        requires
            self.are_parts(),
            self.is_left_event(event),
        ensures
            self.lies_on_segment_of(event, self.point(event)),
            self.lies_on_segment_of(event, self.opposite_point(event)),
    {
        reveal(tables_hold_parts);
        assert(self.lies_on_segment_of(event, self.endpoints[event as int]));
    }

    /// A point of a left event's segment lies on the input segment that
    /// the event descends from.
    pub proof fn lemma_point_of_part(self, event: Event, point: PointView)
        requires
            self.are_parts(),
            self.is_left_event(event),
            lies_on(self.point(event), self.opposite_point(event), point),
        ensures
            self.lies_on_segment_of(event, point),
    {
        self.lemma_parts_of(event);
        lemma_part_of_part(
            self.segment_start(self.left_event_segment_id(event)),
            self.segment_end(self.left_event_segment_id(event)),
            self.point(event),
            self.opposite_point(event),
            point,
        );
    }

    /// What holds of two left events whose segments are no single points:
    /// both come before their ends, and if both ends of the second are on
    /// the line of the first, taken from its end to its start, then each
    /// end of either segment is on the line of the other.
    #[verifier::rlimit(40)]
    pub proof fn lemma_proper_pair(self, below_event: Event, event: Event)
        requires
            self.is_proper(),
            self.is_left_event(below_event),
            self.is_left_event(event),
        ensures
            point_lt(self.point(event), self.opposite_point(event)),
            point_lt(self.point(below_event), self.opposite_point(below_event)),
            orientation_of(self.point(below_event), self.opposite_point(below_event), self.point(event))
                == Orientation::Collinear <==> orientation_of(
                self.opposite_point(below_event),
                self.point(below_event),
                self.point(event),
            ) == Orientation::Collinear,
            orientation_of(self.point(below_event), self.opposite_point(below_event), self.opposite_point(event))
                == Orientation::Collinear <==> orientation_of(
                self.opposite_point(below_event),
                self.point(below_event),
                self.opposite_point(event),
            ) == Orientation::Collinear,
            orientation_of(self.opposite_point(below_event), self.point(below_event), self.point(event))
                == Orientation::Collinear && orientation_of(
                self.opposite_point(below_event),
                self.point(below_event),
                self.opposite_point(event),
            ) == Orientation::Collinear ==> orientation_of(
                self.point(event),
                self.opposite_point(event),
                self.point(below_event),
            ) == Orientation::Collinear && orientation_of(
                self.point(event),
                self.opposite_point(event),
                self.opposite_point(below_event),
            ) == Orientation::Collinear,
    {
        assert(point_lt(
            self.endpoints[event as int],
            self.endpoints[self.opposites[event as int] as int],
        ));
        assert(point_lt(
            self.endpoints[below_event as int],
            self.endpoints[self.opposites[below_event as int] as int],
        ));
        lemma_orientation_of_reversed(
            self.point(below_event),
            self.opposite_point(below_event),
            self.point(event),
        );
        lemma_orientation_of_reversed(
            self.point(below_event),
            self.opposite_point(below_event),
            self.opposite_point(event),
        );
        if orientation_of(self.point(below_event), self.opposite_point(below_event), self.point(event))
            == Orientation::Collinear && orientation_of(
            self.point(below_event),
            self.opposite_point(below_event),
            self.opposite_point(event),
        ) == Orientation::Collinear {
            lemma_lines_coincide(
                self.point(below_event),
                self.opposite_point(below_event),
                self.point(event),
                self.opposite_point(event),
            );
        }
    }

    /// A state with the same pending events follows as well.
    pub proof fn lemma_queue_follows_same(self, earlier: Self, later: Self)
        requires
            self.queue_follows(earlier) || self == earlier,
            later.events_queue == self.events_queue,
        ensures
            later.queue_follows(earlier),
    {
        assert forall|index: int| 0 <= index < later.events_queue.len() implies earlier.events_queue.contains(
            #[trigger] later.events_queue[index],
        ) || later.events_queue[index] >= earlier.endpoints.len() by {
            if self == earlier {
                assert(earlier.events_queue[index] == later.events_queue[index]);
            } else {
                assert(self.events_queue[index] == later.events_queue[index]);
            }
        }
    }

    /// The event taken was pending and, unless pending events were
    /// repeated, is pending no more.
    pub proof fn lemma_queue_follows_pop(self)
        requires
            self.events_queue.len() > 0,
        ensures
            self.pop().queue_follows(self),
            self.events_queue.contains(self.peek()),
            self.events_queue.no_duplicates() ==> !self.pop().events_queue.contains(self.peek()),
    {
        self.lemma_min_index_in_range(self.events_queue.len());
        let taken = self.min_index(self.events_queue.len());
        let popped = self.pop().events_queue;
        assert(self.events_queue[taken] == self.peek());
        assert forall|index: int| 0 <= index < popped.len() implies self.events_queue.contains(
            #[trigger] popped[index],
        ) by {
            let source = if index < taken {
                index
            } else {
                index + 1
            };
            assert(popped[index] == self.events_queue[source]);
        }
        if self.events_queue.no_duplicates() {
            assert forall|first: int, second: int|
                0 <= first < popped.len() && 0 <= second < popped.len() && first != second implies popped[first]
                != popped[second] by {
                let first_source = if first < taken {
                    first
                } else {
                    first + 1
                };
                let second_source = if second < taken {
                    second
                } else {
                    second + 1
                };
                assert(popped[first] == self.events_queue[first_source]);
                assert(popped[second] == self.events_queue[second_source]);
            }
            if popped.contains(self.peek()) {
                let index = choose|index: int| 0 <= index < popped.len() && popped[index] == self.peek();
                let source = if index < taken {
                    index
                } else {
                    index + 1
                };
                assert(popped[index] == self.events_queue[source]);
            }
        }
    }

    /// What follows a state that follows an earlier one follows the
    /// earlier one.
    pub proof fn lemma_queue_follows_on(self, middle: Self, earlier: Self)
        requires
            self.queue_follows(middle) || self == middle,
            middle.queue_follows(earlier) || middle == earlier,
            earlier.endpoints.len() <= middle.endpoints.len(),
        ensures
            self.queue_follows(earlier),
    {
        assert forall|index: int| 0 <= index < self.events_queue.len() implies earlier.events_queue.contains(
            #[trigger] self.events_queue[index],
        ) || self.events_queue[index] >= earlier.endpoints.len() by {
            let event = self.events_queue[index];
            if middle.events_queue.contains(event) {
                let at = choose|at: int|
                    0 <= at < middle.events_queue.len() && middle.events_queue[at] == event;
                assert(middle.events_queue[at] == event);
            }
        }
    }

    /// An event that is not pending is never pending again.
    pub proof fn lemma_never_pending_again(self, earlier: Self, event: Event)
        requires
            self.queue_follows(earlier) || self == earlier,
            earlier.is_event(event),
            !earlier.events_queue.contains(event),
        ensures
            !self.events_queue.contains(event),
    {
        if self.events_queue.contains(event) {
            let index = choose|index: int|
                0 <= index < self.events_queue.len() && self.events_queue[index] == event;
            assert(self.events_queue[index] == event);
        }
    }

    /// No input segment is a single point.
    pub proof fn lemma_input_segment_proper(self, segment_id: usize)
        requires
            self.wf(),
            self.is_proper(),
            self.are_parts(),
            segment_id < self.min_collinear_segments_ids.len(),
        ensures
            point_lt(self.segment_start(segment_id), self.segment_end(segment_id)),
    {
        let event = (2 * segment_id) as usize;
        assert(self.segments_ids[segment_id as int] == segment_id);
        assert(self.left_event_segment_id(event) == segment_id);
        self.lemma_parts_of(event);
        assert(point_lt(
            self.endpoints[event as int],
            self.endpoints[self.opposites[event as int] as int],
        ));
    }

    /// Each input segment lies on the line of the one that its entry of
    /// the classes' table refers to, and the other way round.
    pub proof fn lemma_entry_on_line(self, segment_id: usize)
        requires
            self.wf(),
            self.is_sound(),
            segment_id < self.min_collinear_segments_ids.len(),
        ensures
            self.is_segment_on_line_of(
                self.min_collinear_segments_ids[segment_id as int],
                segment_id,
            ),
            self.is_segment_on_line_of(
                segment_id,
                self.min_collinear_segments_ids[segment_id as int],
            ),
    {
        reveal(tables_keep_lines);
        let entry = self.min_collinear_segments_ids[segment_id as int];
        assert(entry <= segment_id);
        self.lemma_input_segment_proper(entry);
        lemma_lines_coincide(
            self.segment_start(entry),
            self.segment_end(entry),
            self.segment_start(segment_id),
            self.segment_end(segment_id),
        );
    }

    /// Each input segment lies on the line of the representative of its
    /// class.
    pub proof fn lemma_root_on_line(self, segment_id: usize)
        requires
            self.wf(),
            self.is_sound(),
            segment_id < self.min_collinear_segments_ids.len(),
        ensures
            self.min_collinear_segment_id(segment_id) < self.min_collinear_segments_ids.len(),
            self.is_segment_on_line_of(self.min_collinear_segment_id(segment_id), segment_id),
        decreases segment_id,
    {
        let entry = self.min_collinear_segments_ids[segment_id as int];
        assert(entry <= segment_id);
        if entry < segment_id {
            self.lemma_root_on_line(entry);
            self.lemma_entry_on_line(segment_id);
            self.lemma_input_segment_proper(entry);
            let root = self.min_collinear_segment_id(entry);
            lemma_on_line_of_line(
                self.segment_start(root),
                self.segment_end(root),
                self.segment_start(entry),
                self.segment_end(entry),
                self.segment_start(segment_id),
                self.segment_end(segment_id),
            );
        } else {
            lemma_endpoints_collinear(
                self.segment_start(segment_id),
                self.segment_end(segment_id),
            );
        }
    }

    /// Input segments of one class lie on one line.
    pub proof fn lemma_class_on_line(self, segment_id: usize, other_segment_id: usize)
        requires
            self.wf(),
            self.is_sound(),
            segment_id < self.min_collinear_segments_ids.len(),
            other_segment_id < self.min_collinear_segments_ids.len(),
            self.are_collinear(segment_id, other_segment_id),
        ensures
            self.is_segment_on_line_of(segment_id, other_segment_id),
    {
        let root = self.min_collinear_segment_id(segment_id);
        self.lemma_root_on_line(segment_id);
        self.lemma_root_on_line(other_segment_id);
        self.lemma_input_segment_proper(root);
        lemma_lines_coincide(
            self.segment_start(root),
            self.segment_end(root),
            self.segment_start(segment_id),
            self.segment_end(segment_id),
        );
        lemma_on_line_of_line(
            self.segment_start(segment_id),
            self.segment_end(segment_id),
            self.segment_start(root),
            self.segment_end(root),
            self.segment_start(other_segment_id),
            self.segment_end(other_segment_id),
        );
    }

    /// Uniting the classes of two events whose segments coincide keeps
    /// each class on one line.
    pub proof fn lemma_merge_keeps_lines(self, first: Event, second: Event)
        requires
            self.wf(),
            self.is_sound(),
            self.is_left_event(first),
            self.is_left_event(second),
            self.are_coincident(first, second),
        ensures
            self.merge_equal_segment_events(first, second).keeps_lines(),
    {
        let merged = self.merge_equal_segment_events(first, second);
        let first_id = self.left_event_segment_id(first);
        let second_id = self.left_event_segment_id(second);
        assert(first_id == self.segments_ids[first as int / 2]);
        assert(second_id == self.segments_ids[second as int / 2]);
        let first_root = self.min_collinear_segment_id(first_id);
        let second_root = self.min_collinear_segment_id(second_id);
        let min = if first_root <= second_root {
            first_root
        } else {
            second_root
        };
        self.lemma_root_on_line(first_id);
        self.lemma_root_on_line(second_id);
        self.lemma_input_segment_proper(first_id);
        self.lemma_input_segment_proper(second_id);
        self.lemma_input_segment_proper(first_root);
        self.lemma_input_segment_proper(second_root);
        self.lemma_parts_of(first);
        self.lemma_parts_of(second);
        assert(point_lt(
            self.endpoints[first as int],
            self.endpoints[self.opposites[first as int] as int],
        ));
        // the two segments share the ends of the events' segments
        lemma_lines_share_points(
            self.segment_start(first_id),
            self.segment_end(first_id),
            self.segment_start(second_id),
            self.segment_end(second_id),
            self.point(first),
            self.opposite_point(first),
        );
        lemma_lines_coincide(
            self.segment_start(first_id),
            self.segment_end(first_id),
            self.segment_start(second_id),
            self.segment_end(second_id),
        );
        lemma_lines_coincide(
            self.segment_start(first_root),
            self.segment_end(first_root),
            self.segment_start(first_id),
            self.segment_end(first_id),
        );
        lemma_lines_coincide(
            self.segment_start(second_root),
            self.segment_end(second_root),
            self.segment_start(second_id),
            self.segment_end(second_id),
        );
        lemma_endpoints_collinear(self.segment_start(min), self.segment_end(min));
        // from the first representative to the second segment and its
        // representative
        lemma_on_line_of_line(
            self.segment_start(first_root),
            self.segment_end(first_root),
            self.segment_start(first_id),
            self.segment_end(first_id),
            self.segment_start(second_id),
            self.segment_end(second_id),
        );
        lemma_on_line_of_line(
            self.segment_start(first_root),
            self.segment_end(first_root),
            self.segment_start(second_id),
            self.segment_end(second_id),
            self.segment_start(second_root),
            self.segment_end(second_root),
        );
        // from the second representative to the first segment and its
        // representative
        lemma_on_line_of_line(
            self.segment_start(second_root),
            self.segment_end(second_root),
            self.segment_start(second_id),
            self.segment_end(second_id),
            self.segment_start(first_id),
            self.segment_end(first_id),
        );
        lemma_on_line_of_line(
            self.segment_start(second_root),
            self.segment_end(second_root),
            self.segment_start(first_id),
            self.segment_end(first_id),
            self.segment_start(first_root),
            self.segment_end(first_root),
        );
        assert(self.is_segment_on_line_of(min, first_id));
        assert(self.is_segment_on_line_of(min, second_id));
        assert(self.is_segment_on_line_of(min, first_root));
        assert(self.is_segment_on_line_of(min, second_root));
        reveal(tables_keep_lines);
        assert forall|id: int| 0 <= id < merged.min_collinear_segments_ids.len() implies is_on_line_of(
            merged.endpoints[2 * (#[trigger] merged.min_collinear_segments_ids[id])],
            merged.endpoints[2 * merged.min_collinear_segments_ids[id] + 1],
            merged.endpoints[2 * id],
            merged.endpoints[2 * id + 1],
        ) by {
            if id == first_id || id == second_id || id == first_root || id == second_root {
                assert(merged.min_collinear_segments_ids[id] == min);
            } else {
                assert(merged.min_collinear_segments_ids[id] == self.min_collinear_segments_ids[id]);
            }
        }
    }

    /// Dividing a segment changes no input segment and no class.
    pub proof fn lemma_divide_keeps_lines(self, event: Event, mid_point: PointView)
        requires
            self.wf(),
            self.is_left_event(event),
            self.keeps_lines(),
        ensures
            self.divide(event, mid_point).keeps_lines(),
    {
        reveal(tables_keep_lines);
        let divided = self.divide(event, mid_point);
        assert forall|id: int| 0 <= id < divided.min_collinear_segments_ids.len() implies is_on_line_of(
            divided.endpoints[2 * (#[trigger] divided.min_collinear_segments_ids[id])],
            divided.endpoints[2 * divided.min_collinear_segments_ids[id] + 1],
            divided.endpoints[2 * id],
            divided.endpoints[2 * id + 1],
        ) by {
            assert(self.min_collinear_segments_ids[id] <= id);
        }
    }

    /// In a later state a left event descends from the same input segment.
    pub proof fn lemma_extends_keeps_segments(self, earlier: Self, event: Event, point: PointView)
        requires
            earlier.wf(),
            self.extends(earlier),
            earlier.is_left_event(event),
        ensures
            self.left_event_segment_id(event) == earlier.left_event_segment_id(event),
            self.lies_on_segment_of(event, point) == earlier.lies_on_segment_of(event, point),
    {
        let id = earlier.segments_ids[event as int / 2];
        assert(id < earlier.min_collinear_segments_ids.len());
        assert(self.segments_ids[event as int / 2] == id);
        assert(self.endpoints[2 * id] == earlier.endpoints[2 * id]);
        assert(self.endpoints[2 * id + 1] == earlier.endpoints[2 * id + 1]);
    }

    /// Dividing a segment at a point of the input segment that it
    /// descends from keeps the segments parts of their input segments.
    #[verifier::rlimit(40)]
    pub proof fn lemma_divide_parts(self, event: Event, mid_point: PointView)
        requires
            self.wf(),
            self.is_left_event(event),
            self.endpoints.len() + 2 <= usize::MAX,
            self.are_parts(),
            self.lies_on_segment_of(event, mid_point),
        ensures
            self.divide(event, mid_point).are_parts(),
    {
        reveal(tables_hold_parts);
        let divided = self.divide(event, mid_point);
        let opposite_event = self.opposite(event);
        assert(self.opposites[event as int] == opposite_event);
        assert(self.opposites[opposite_event as int] == event);
        assert(self.lies_on_segment_of(event, self.endpoints[event as int]));
        assert forall|other: int|
            0 <= other < divided.endpoints.len() && is_left(other as usize) implies {
            &&& lies_on(
                divided.endpoints[2 * divided.segments_ids[other / 2]],
                divided.endpoints[2 * divided.segments_ids[other / 2] + 1],
                #[trigger] divided.endpoints[other],
            )
            &&& lies_on(
                divided.endpoints[2 * divided.segments_ids[other / 2]],
                divided.endpoints[2 * divided.segments_ids[other / 2] + 1],
                divided.endpoints[divided.opposites[other] as int],
            )
        } by {
            let id = divided.segments_ids[other / 2];
            if other < self.endpoints.len() {
                assert(id == self.segments_ids[other / 2]);
                assert(self.segments_ids[other / 2] < self.min_collinear_segments_ids.len());
                assert(self.lies_on_segment_of(other as usize, self.endpoints[other]));
                assert(self.opposites[self.opposites[other] as int] == other);
                if other != event {
                    assert(divided.opposites[other] == self.opposites[other]);
                }
            } else {
                assert(id == self.left_event_segment_id(event));
                assert(self.segments_ids[event as int / 2]
                    < self.min_collinear_segments_ids.len());
            }
        }
    }

    pub proof fn lemma_merge_wf(self, first: Event, second: Event)
        requires
            self.wf(),
            self.is_left_event(first),
            self.is_left_event(second),
        ensures
            self.merge_equal_segment_events(first, second).wf(),
            self.merge_equal_segment_events(first, second).potential() == self.potential(),
    {
        let first_id = self.left_event_segment_id(first);
        let second_id = self.left_event_segment_id(second);
        assert(first_id == self.segments_ids[first as int / 2]);
        assert(second_id == self.segments_ids[second as int / 2]);
        lemma_united_descending(self.min_collinear_segments_ids, first_id, second_id);
    }
}

/// The state that a sweep over `segments` starts from: segment `i` owns
/// the events `2 * i`, at its smaller endpoint, and `2 * i + 1`, at its
/// larger one; every event is pending and the sweep line is empty.
pub open spec fn initial_view(segments: Seq<SegmentView>) -> RegistryView {
    RegistryView {
        endpoints: Seq::new(
            2 * segments.len(),
            |event: int|
                if event % 2 == 0 {
                    sorted_pair(segments[event / 2].start, segments[event / 2].end).0
                } else {
                    sorted_pair(segments[event / 2].start, segments[event / 2].end).1
                },
        ),
        opposites: Seq::new(
            2 * segments.len(),
            |event: int|
                if event % 2 == 0 {
                    (event + 1) as usize
                } else {
                    (event - 1) as usize
                },
        ),
        segments_ids: Seq::new(segments.len(), |index: int| index as usize),
        min_collinear_segments_ids: Seq::new(segments.len(), |index: int| index as usize),
        events_queue: Seq::new(2 * segments.len(), |event: int| event as usize),
        sweep_line: Seq::empty(),
    }
}

/// At the start each event's segment is its input segment, and none is
/// a single point unless an input segment is.
#[verifier::rlimit(40)]
pub proof fn initial_view_is_sound(segments: Seq<SegmentView>)
    requires
        2 * segments.len() <= usize::MAX,
    ensures
        initial_view(segments).are_parts(),
        initial_view(segments).keeps_lines(),
        (forall|index: int|
            0 <= index < segments.len() ==> (#[trigger] segments[index]).start
                != segments[index].end) ==> initial_view(segments).is_proper(),
{
    reveal(tables_hold_parts);
    reveal(tables_keep_lines);
    let initial = initial_view(segments);
    assert forall|id: int| 0 <= id < initial.min_collinear_segments_ids.len() implies is_on_line_of(
        initial.endpoints[2 * (#[trigger] initial.min_collinear_segments_ids[id])],
        initial.endpoints[2 * initial.min_collinear_segments_ids[id] + 1],
        initial.endpoints[2 * id],
        initial.endpoints[2 * id + 1],
    ) by {
        lemma_endpoints_collinear(initial.endpoints[2 * id], initial.endpoints[2 * id + 1]);
    }
    assert forall|event: int|
        0 <= event < initial.endpoints.len() && is_left(event as usize) implies {
        &&& lies_on(
            initial.endpoints[2 * initial.segments_ids[event / 2]],
            initial.endpoints[2 * initial.segments_ids[event / 2] + 1],
            #[trigger] initial.endpoints[event],
        )
        &&& lies_on(
            initial.endpoints[2 * initial.segments_ids[event / 2]],
            initial.endpoints[2 * initial.segments_ids[event / 2] + 1],
            initial.endpoints[initial.opposites[event] as int],
        )
    } by {
        assert(initial.segments_ids[event / 2] == event / 2);
        assert(initial.opposites[event] == event + 1);
        lemma_endpoints_lie_on(initial.endpoints[event], initial.endpoints[event + 1]);
    }
    if forall|index: int|
        0 <= index < segments.len() ==> (#[trigger] segments[index]).start != segments[index].end {
        assert forall|event: int|
            0 <= event < initial.endpoints.len() && is_left(event as usize) implies point_lt(
            #[trigger] initial.endpoints[event],
            initial.endpoints[initial.opposites[event] as int],
        ) by {
            assert(initial.opposites[event] == event + 1);
            assert(segments[event / 2].start != segments[event / 2].end);
        }
    }
}

/// The events of a plane sweep over segments. With `UNIQUE`, segments that
/// coincide with one met before are passed over.
pub struct EventsRegistry<const UNIQUE: bool> {
    endpoints: Vec<Point>,
    events_queue_data: Vec<Event>,
    min_collinear_segments_ids: Vec<usize>,
    opposites: Vec<Event>,
    segments_ids: Vec<usize>,
    sweep_line_data: Vec<Event>,
}

impl<const UNIQUE: bool> View for EventsRegistry<UNIQUE> {
    type V = RegistryView;

    closed spec fn view(&self) -> RegistryView {
        RegistryView {
            endpoints: self.endpoints.deep_view(),
            opposites: self.opposites@,
            segments_ids: self.segments_ids@,
            min_collinear_segments_ids: self.min_collinear_segments_ids@,
            events_queue: self.events_queue_data@,
            sweep_line: self.sweep_line_data@,
        }
    }
}

impl<const UNIQUE: bool> EventsRegistry<UNIQUE> {
    /// Registers the two events of each segment.
    #[verifier::rlimit(40)]
    pub fn from(segments: &Vec<Segment>) -> (result: Self)
        ensures
            result@ == initial_view(segments.deep_view()),
            result@.wf(),
            result@.is_ordered(),
            result@.are_parts(),
            result@.keeps_lines(),
            result@.events_queue.no_duplicates(),
            (forall|index: int|
                0 <= index < segments.len() ==> (#[trigger] segments.deep_view()[index]).start
                    != segments.deep_view()[index].end) ==> result@.is_proper(),
    {
        let mut result = Self {
            endpoints: Vec::new(),
            events_queue_data: Vec::new(),
            min_collinear_segments_ids: Vec::new(),
            opposites: Vec::new(),
            segments_ids: Vec::new(),
            sweep_line_data: Vec::new(),
        };
        let ghost expected = initial_view(segments.deep_view());
        let mut index: usize = 0;
        while index < segments.len()
            invariant
                index <= segments.len(),
                expected == initial_view(segments.deep_view()),
                result.endpoints.len() == 2 * index,
                result.opposites.len() == 2 * index,
                result.events_queue_data.len() == 2 * index,
                result.segments_ids.len() == index,
                result.min_collinear_segments_ids.len() == index,
                result.sweep_line_data.len() == 0,
                forall|event: int|
                    0 <= event < 2 * index ==> {
                        &&& result.endpoints[event]@ == expected.endpoints[event]
                        &&& result.opposites[event] == expected.opposites[event]
                        &&& result.events_queue_data[event] == expected.events_queue[event]
                    },
                forall|id: int|
                    0 <= id < index ==> {
                        &&& result.segments_ids[id] == id
                        &&& result.min_collinear_segments_ids[id] == id
                    },
            decreases segments.len() - index,
        {
            let (start, end) = to_sorted_pair(segments[index].start(), segments[index].end());
            let left_event = result.endpoints.len();
            result.endpoints.push(start);
            let right_event = result.endpoints.len();
            result.endpoints.push(end);
            result.opposites.push(right_event);
            result.opposites.push(left_event);
            result.segments_ids.push(index);
            result.min_collinear_segments_ids.push(index);
            result.push_unchecked(left_event);
            result.push_unchecked(right_event);
            index += 1;
        }
        proof {
            assert(result@.endpoints =~= expected.endpoints);
            assert(result@.opposites =~= expected.opposites);
            assert(result@.segments_ids =~= expected.segments_ids);
            assert(result@.min_collinear_segments_ids =~= expected.min_collinear_segments_ids);
            assert(result@.events_queue =~= expected.events_queue);
            assert(result@.sweep_line =~= expected.sweep_line);
            initial_view_is_sound(segments.deep_view());
        }
        result
    }

    fn push_unchecked(&mut self, event: Event)
        ensures
            final(self).events_queue_data@ == old(self).events_queue_data@.push(event),
            final(self).endpoints == old(self).endpoints,
            final(self).opposites == old(self).opposites,
            final(self).segments_ids == old(self).segments_ids,
            final(self).min_collinear_segments_ids == old(self).min_collinear_segments_ids,
            final(self).sweep_line_data == old(self).sweep_line_data,
    {
        self.events_queue_data.push(event);
    }

    /// Whether both input segments belong to one class of segments known
    /// to coincide somewhere.
    pub fn are_collinear(&self, segment_id: usize, other_segment_id: usize) -> (result: bool)
        requires
            self@.wf(),
            segment_id < self@.min_collinear_segments_ids.len(),
            other_segment_id < self@.min_collinear_segments_ids.len(),
        ensures
            result == self@.are_collinear(segment_id, other_segment_id),
            self@.is_sound() && result ==> self@.is_segment_on_line_of(
                segment_id,
                other_segment_id,
            ),
    {
        proof {
            if self@.is_sound() && self@.are_collinear(segment_id, other_segment_id) {
                self@.lemma_class_on_line(segment_id, other_segment_id);
            }
        }
        self.to_min_collinear_segment_id(segment_id) == self.to_min_collinear_segment_id(
            other_segment_id,
        )
    }

    /// The larger endpoint of the event's segment: the point of a right
    /// event, and the point of the opposite of a left one.
    pub fn get_event_end(&self, event: Event) -> (result: &Point)
        requires
            self@.wf(),
            self@.is_event(event),
        ensures
            result@ == self@.end(event),
            self@.is_ordered() ==> !point_lt(result@, self@.start(event)),
            self@.is_proper() ==> point_lt(self@.start(event), result@),
    {
        proof {
            self@.lemma_start_before_end(event);
        }
        if is_left_event(event) {
            &self.endpoints[self.get_opposite(event)]
        } else {
            &self.endpoints[event]
        }
    }

    /// The input segment that the event's segment is a part of.
    pub fn get_event_segment_id(&self, event: Event) -> (result: usize)
        requires
            self@.wf(),
            self@.is_event(event),
        ensures
            result == self@.event_segment_id(event),
            result < self@.min_collinear_segments_ids.len(),
    {
        self.to_left_event_segment_id(
            if is_left_event(event) {
                event
            } else {
                self.get_opposite(event)
            },
        )
    }

    /// The point of the event.
    pub fn get_event_point(&self, event: Event) -> (result: &Point)
        requires
            self@.wf(),
            self@.is_event(event),
        ensures
            result@ == self@.point(event),
    {
        &self.endpoints[event]
    }

    /// The smaller endpoint of the event's segment: the point of a left
    /// event, and the point of the opposite of a right one.
    pub fn get_event_start(&self, event: Event) -> (result: &Point)
        requires
            self@.wf(),
            self@.is_event(event),
        ensures
            result@ == self@.start(event),
            self@.is_ordered() ==> !point_lt(self@.end(event), result@),
            self@.is_proper() ==> point_lt(result@, self@.end(event)),
    {
        proof {
            self@.lemma_start_before_end(event);
        }
        if is_left_event(event) {
            &self.endpoints[event]
        } else {
            &self.endpoints[self.get_opposite(event)]
        }
    }

    /// The larger endpoint of an input segment.
    pub fn get_segment_end(&self, segment_id: usize) -> (result: &Point)
        requires
            self@.wf(),
            segment_id < self@.segments_ids.len(),
        ensures
            result@ == self@.endpoints[2 * segment_id + 1],
    {
        &self.endpoints[2 * segment_id + 1]
    }

    /// The smaller endpoint of an input segment.
    pub fn get_segment_start(&self, segment_id: usize) -> (result: &Point)
        requires
            self@.wf(),
            segment_id < self@.segments_ids.len(),
        ensures
            result@ == self@.endpoints[2 * segment_id],
    {
        &self.endpoints[2 * segment_id]
    }

    /// The event at the other end of the event's segment.
    pub fn get_opposite(&self, event: Event) -> (result: Event)
        requires
            self@.wf(),
            self@.is_event(event),
        ensures
            result == self@.opposite(event),
            self@.is_event(result),
            is_left(result) != is_left(event),
    {
        self.opposites[event]
    }

    pub fn to_left_event_segment_id(&self, event: Event) -> (result: usize)
        requires
            self@.wf(),
            self@.is_left_event(event),
        ensures
            result == self@.left_event_segment_id(event),
            result < self@.min_collinear_segments_ids.len(),
    {
        self.segments_ids[event / 2]
    }

    /// Follows the classes' table from `segment_id` to the entry that
    /// refers to itself.
    pub fn to_min_collinear_segment_id(&self, segment_id: usize) -> (result: usize)
        requires
            self@.wf(),
            segment_id < self@.min_collinear_segments_ids.len(),
        ensures
            result == self@.min_collinear_segment_id(segment_id),
            result <= segment_id,
            self@.min_collinear_segments_ids[result as int] == result,
            collinear_hops(self@.min_collinear_segments_ids, segment_id) <= segment_id,
    {
        proof {
            lemma_collinear_root(self@.min_collinear_segments_ids, segment_id);
        }
        let mut candidate = segment_id;
        while self.min_collinear_segments_ids[candidate] != candidate
            invariant
                self@.wf(),
                candidate <= segment_id,
                candidate < self.min_collinear_segments_ids.len(),
                collinear_root(self.min_collinear_segments_ids@, candidate) == collinear_root(
                    self.min_collinear_segments_ids@,
                    segment_id,
                ),
            decreases candidate,
        {
            candidate = self.min_collinear_segments_ids[candidate];
        }
        candidate
    }
}

impl<const UNIQUE: bool> EventsRegistry<UNIQUE> {
    /// Adds an event to the pending ones.
    pub fn push(&mut self, event: Event)
        requires
            old(self)@.wf(),
            old(self)@.is_event(event),
        ensures
            final(self)@ == old(self)@.push(event),
            final(self)@.wf(),
            final(self)@.extends(old(self)@),
            final(self)@.is_ordered() == old(self)@.is_ordered(),
            final(self)@.are_parts() == old(self)@.are_parts(),
            final(self)@.is_proper() == old(self)@.is_proper(),
            final(self)@.keeps_lines() == old(self)@.keeps_lines(),
            final(self)@.potential() == old(self)@.potential() + 1,
    {
        proof {
            self@.lemma_push_wf(event);
        }
        self.events_queue_data.push(event);
    }

    /// Takes the first least pending event.
    #[verifier::rlimit(40)]
    pub fn pop(&mut self) -> (result: Option<Event>)
        requires
            old(self)@.wf(),
        ensures
            final(self)@.wf(),
            final(self)@.extends(old(self)@),
            final(self)@.queue_follows(old(self)@),
            result is None <==> old(self)@.events_queue.len() == 0,
            final(self)@.is_ordered() == old(self)@.is_ordered(),
            final(self)@.are_parts() == old(self)@.are_parts(),
            final(self)@.is_proper() == old(self)@.is_proper(),
            final(self)@.keeps_lines() == old(self)@.keeps_lines(),
            result is None ==> final(self)@ == old(self)@,
            result is Some ==> result == Some(old(self)@.peek()) && final(self)@ == old(self)@.pop()
                && old(self)@.is_event(result->0) && final(self)@.potential() == old(self)@.potential() - 1,
            result is Some ==> old(self)@.events_queue.contains(result->0) && (old(self)@.events_queue.no_duplicates() ==> !final(self)@.events_queue.contains(result->0)),
    {
        if self.events_queue_data.len() == 0 {
            proof {
                self@.lemma_queue_follows_same(self@, self@);
            }
            return None;
        }
        let mut candidate: usize = 0;
        let mut index: usize = 1;
        while index < self.events_queue_data.len()
            invariant
                self@.wf(),
                1 <= index <= self.events_queue_data.len(),
                candidate < index,
                candidate == self@.min_index(index as nat),
            decreases self.events_queue_data.len() - index,
        {
            if compare_events(
                self.events_queue_data[index],
                self.events_queue_data[candidate],
                &self.endpoints,
                &self.opposites,
            ) == Comparison::Less {
                candidate = index;
            }
            index += 1;
        }
        proof {
            self@.lemma_pop_wf();
            self@.lemma_queue_follows_pop();
        }
        let event = self.events_queue_data.remove(candidate);
        Some(event)
    }

    /// Index of the first event of the sweep line whose segment compares
    /// as `outcome` with that of `event`.
    fn to_first_index(&self, event: Event, outcome: Comparison) -> (result: usize)
        requires
            self@.wf(),
            self@.is_event(event),
        ensures
            result == self@.first_index(event, outcome, 0),
            result <= self@.sweep_line.len(),
    {
        let mut index: usize = 0;
        while index < self.sweep_line_data.len()
            invariant
                self@.wf(),
                self@.is_event(event),
                index <= self.sweep_line_data.len(),
                self@.first_index(event, outcome, 0) == self@.first_index(
                    event,
                    outcome,
                    index as int,
                ),
            decreases self.sweep_line_data.len() - index,
        {
            if compare_sweep_line_keys(
                self.sweep_line_data[index],
                event,
                &self.endpoints,
                &self.opposites,
            ) == outcome {
                return index;
            }
            index += 1;
        }
        index
    }

    /// The lowest event of the sweep line whose segment lies above that of
    /// `event`.
    pub fn above(&self, event: Event) -> (result: Option<Event>)
        requires
            self@.wf(),
            self@.is_event(event),
        ensures
            result == self@.above(event),
            result is Some ==> self@.is_left_event(result->0) && self@.line_comparison(
                result->0,
                event,
            ) == Comparison::Greater,
    {
        let index = self.to_first_index(event, Comparison::Greater);
        proof {
            if index < self.sweep_line_data.len() {
                self@.lemma_first_index_matches(event, Comparison::Greater, 0);
            }
        }
        if index < self.sweep_line_data.len() {
            Some(self.sweep_line_data[index])
        } else {
            None
        }
    }

    /// The highest event of the sweep line whose segment lies below that
    /// of `event`.
    pub fn below(&self, event: Event) -> (result: Option<Event>)
        requires
            self@.wf(),
            self@.is_event(event),
        ensures
            result == self@.below(event),
            result is Some ==> self@.is_left_event(result->0) && self@.line_comparison(
                result->0,
                event,
            ) == Comparison::Less,
    {
        let mut count: usize = self.sweep_line_data.len();
        while count > 0
            invariant
                self@.wf(),
                self@.is_event(event),
                count <= self.sweep_line_data.len(),
                self@.last_below_index(event, self@.sweep_line.len() as int)
                    == self@.last_below_index(event, count as int),
            decreases count,
        {
            if compare_sweep_line_keys(
                self.sweep_line_data[count - 1],
                event,
                &self.endpoints,
                &self.opposites,
            ) == Comparison::Less {
                return Some(self.sweep_line_data[count - 1]);
            }
            count -= 1;
        }
        None
    }

    /// The first event of the sweep line whose segment coincides with that
    /// of `event`.
    pub fn find(&self, event: Event) -> (result: Option<Event>)
        requires
            self@.wf(),
            self@.is_event(event),
        ensures
            result == self@.find(event),
            result is Some ==> self@.is_left_event(result->0) && self@.line_comparison(
                result->0,
                event,
            ) == Comparison::Equal,
    {
        let index = self.to_first_index(event, Comparison::Equal);
        proof {
            if index < self.sweep_line_data.len() {
                self@.lemma_first_index_matches(event, Comparison::Equal, 0);
            }
        }
        if index < self.sweep_line_data.len() {
            Some(self.sweep_line_data[index])
        } else {
            None
        }
    }

    /// Puts a left event on the sweep line, unless an event with a
    /// coincident segment is there; says whether it did.
    #[verifier::rlimit(40)]
    pub fn insert(&mut self, event: Event) -> (result: bool)
        requires
            old(self)@.wf(),
            old(self)@.is_left_event(event),
        ensures
            final(self)@ == old(self)@.insert(event),
            final(self)@.wf(),
            final(self)@.extends(old(self)@),
            final(self)@.queue_follows(old(self)@),
            final(self)@.is_ordered() == old(self)@.is_ordered(),
            final(self)@.are_parts() == old(self)@.are_parts(),
            final(self)@.is_proper() == old(self)@.is_proper(),
            final(self)@.keeps_lines() == old(self)@.keeps_lines(),
            final(self)@.potential() == old(self)@.potential(),
            result == (old(self)@.find(event) is None),
            result ==> forall|index: int|
                0 <= index <= old(self)@.insert_place(event) && index < old(self)@.sweep_line.len()
                    ==> old(self)@.line_comparison(
                    #[trigger] old(self)@.sweep_line[index],
                    event,
                ) == if index < old(self)@.insert_place(event) {
                    Comparison::Less
                } else {
                    Comparison::Greater
                },
    {
        proof {
            if self@.find(event) is None {
                assert forall|index: int|
                    0 <= index <= self@.insert_place(event) && index
                        < self@.sweep_line.len() implies self@.line_comparison(
                    #[trigger] self@.sweep_line[index],
                    event,
                ) == if index < self@.insert_place(event) {
                    Comparison::Less
                } else {
                    Comparison::Greater
                } by {
                    self@.lemma_insert_place(event, index);
                }
            }
        }
        if self.to_first_index(event, Comparison::Equal) < self.sweep_line_data.len() {
            false
        } else {
            let index = self.to_first_index(event, Comparison::Greater);
            proof {
                self@.lemma_insert_wf(event);
            }
            self.sweep_line_data.insert(index, event);
            true
        }
    }

    /// Takes the first event with a segment coincident with that of
    /// `event` from the sweep line; says whether there was one.
    #[verifier::rlimit(40)]
    pub fn remove(&mut self, event: Event) -> (result: bool)
        requires
            old(self)@.wf(),
            old(self)@.is_event(event),
        ensures
            final(self)@ == old(self)@.remove(event),
            final(self)@.wf(),
            final(self)@.extends(old(self)@),
            final(self)@.queue_follows(old(self)@),
            final(self)@.is_ordered() == old(self)@.is_ordered(),
            final(self)@.are_parts() == old(self)@.are_parts(),
            final(self)@.is_proper() == old(self)@.is_proper(),
            final(self)@.keeps_lines() == old(self)@.keeps_lines(),
            forall|other: Event|
                final(self)@.point(other) == old(self)@.point(other) && final(self)@.opposite_point(other)
                    == old(self)@.opposite_point(other),
            final(self)@.potential() == old(self)@.potential(),
            result == (old(self)@.find(event) is Some),
    {
        let index = self.to_first_index(event, Comparison::Equal);
        proof {
            self@.lemma_remove_wf(event);
        }
        if index < self.sweep_line_data.len() {
            self.sweep_line_data.remove(index);
            true
        } else {
            false
        }
    }

    /// Splits the segment of a left event at `mid_point`, and returns the
    /// new right event, which ends the part from the old start, and the
    /// new left event, which starts the part up to the old end.
    #[verifier::rlimit(40)]
    pub fn divide(&mut self, event: Event, mid_point: Point) -> (result: (Event, Event))
        requires
            old(self)@.wf(),
            old(self)@.is_left_event(event),
        ensures
            final(self)@ == old(self)@.divide(event, mid_point@),
            final(self)@.wf(),
            final(self)@.extends(old(self)@),
            final(self)@.queue_follows(old(self)@),
            old(self)@.is_ordered() && old(self)@.is_between(event, mid_point@) ==> final(self)@.is_ordered(),
            forall|other: Event|
                old(self)@.is_left_event(other) && other != event ==> final(self)@.point(other)
                    == old(self)@.point(other) && final(self)@.opposite_point(other) == old(self)@.opposite_point(other),
            final(self)@.point(event) == old(self)@.point(event),
            final(self)@.opposite_point(event) == mid_point@,
            final(self)@.opposite_point(result.1) == old(self)@.opposite_point(event),
            final(self)@.point(result.1) == mid_point@,
            old(self)@.are_parts() && old(self)@.lies_on_segment_of(event, mid_point@) ==> final(self)@.are_parts(),
            final(self)@.left_event_segment_id(result.1) == old(self)@.left_event_segment_id(event),
            old(self)@.is_proper() && old(self)@.is_strictly_between(event, mid_point@) ==> final(self)@.is_proper(),
            old(self)@.keeps_lines() ==> final(self)@.keeps_lines(),
            result == (old(self)@.next_right_event(), old(self)@.next_left_event()),
            final(self)@.is_left_event(result.1),
            final(self)@.is_event(result.0),
            !is_left(result.0),
            final(self)@.endpoints.len() == old(self)@.endpoints.len() + 2,
            final(self)@.potential() == old(self)@.potential() - 2,
    {
        let opposite_event = self.get_opposite(event);
        let segment_id = self.to_left_event_segment_id(event);
        let mid_point_to_event_end_event = self.endpoints.len();
        self.segments_ids.push(segment_id);
        self.endpoints.push(mid_point.clone());
        self.opposites.push(opposite_event);
        self.opposites.set(opposite_event, mid_point_to_event_end_event);
        let mid_point_to_event_start_event = self.endpoints.len();
        self.endpoints.push(mid_point);
        self.opposites.push(event);
        self.opposites.set(event, mid_point_to_event_start_event);
        proof {
            assert(self.endpoints.len() == old(self)@.endpoints.len() + 2);
            old(self)@.lemma_divide_wf(event, mid_point@);
            old(self)@.lemma_divide_ordered(event, mid_point@);
            if old(self)@.are_parts() && old(self)@.lies_on_segment_of(event, mid_point@) {
                old(self)@.lemma_divide_parts(event, mid_point@);
            }
            if old(self)@.keeps_lines() {
                old(self)@.lemma_divide_keeps_lines(event, mid_point@);
            }
            assert(self@.endpoints =~= old(self)@.divide(event, mid_point@).endpoints);
            assert(self@.opposites =~= old(self)@.divide(event, mid_point@).opposites);
            assert(self@.segments_ids =~= old(self)@.divide(event, mid_point@).segments_ids);
        }
        (mid_point_to_event_start_event, mid_point_to_event_end_event)
    }

    /// Unites the classes of the input segments that two left events
    /// descend from: the smaller of their representatives becomes the
    /// representative of both classes.
    #[verifier::rlimit(40)]
    pub fn merge_equal_segment_events(&mut self, first: Event, second: Event)
        requires
            old(self)@.wf(),
            old(self)@.is_left_event(first),
            old(self)@.is_left_event(second),
        ensures
            final(self)@ == old(self)@.merge_equal_segment_events(first, second),
            final(self)@.wf(),
            final(self)@.extends(old(self)@),
            final(self)@.queue_follows(old(self)@),
            final(self)@.is_ordered() == old(self)@.is_ordered(),
            final(self)@.are_parts() == old(self)@.are_parts(),
            final(self)@.is_proper() == old(self)@.is_proper(),
            old(self)@.is_sound() && old(self)@.are_coincident(first, second) ==> final(self)@.is_sound(),
            forall|segment_id: usize, other_segment_id: usize|
                segment_id < old(self)@.min_collinear_segments_ids.len() && other_segment_id < old(self)@.min_collinear_segments_ids.len() ==> (#[trigger] final(self)@.are_collinear(
                    segment_id,
                    other_segment_id,
                )) == old(self)@.are_united_by(first, second, segment_id, other_segment_id),
            final(self)@.potential() == old(self)@.potential(),
    {
        proof {
            self@.lemma_merge_wf(first, second);
            if self@.is_sound() && self@.are_coincident(first, second) {
                self@.lemma_merge_keeps_lines(first, second);
            }
            let merged = self@.merge_equal_segment_events(first, second);
            assert forall|segment_id: usize, other_segment_id: usize|
                segment_id < self@.min_collinear_segments_ids.len() && other_segment_id
                    < self@.min_collinear_segments_ids.len() implies (#[trigger] merged.are_collinear(
                segment_id,
                other_segment_id,
            )) == self@.are_united_by(first, second, segment_id, other_segment_id) by {
                lemma_united_classes(
                    self@.min_collinear_segments_ids,
                    self@.left_event_segment_id(first),
                    self@.left_event_segment_id(second),
                    segment_id,
                    other_segment_id,
                );
            }
        }
        let first_segment_id = self.to_left_event_segment_id(first);
        let second_segment_id = self.to_left_event_segment_id(second);
        let first_min_collinear_segment_id = self.to_min_collinear_segment_id(first_segment_id);
        let second_min_collinear_segment_id = self.to_min_collinear_segment_id(
            second_segment_id,
        );
        let min_collinear_segment_id = if first_min_collinear_segment_id
            <= second_min_collinear_segment_id {
            first_min_collinear_segment_id
        } else {
            second_min_collinear_segment_id
        };
        self.min_collinear_segments_ids.set(first_segment_id, min_collinear_segment_id);
        self.min_collinear_segments_ids.set(second_segment_id, min_collinear_segment_id);
        self.min_collinear_segments_ids.set(
            first_min_collinear_segment_id,
            min_collinear_segment_id,
        );
        self.min_collinear_segments_ids.set(
            second_min_collinear_segment_id,
            min_collinear_segment_id,
        );
    }
}

impl<const UNIQUE: bool> EventsRegistry<UNIQUE> {
    /// Splits the segment of a left event at `point` and makes both new
    /// events pending.
    #[verifier::rlimit(40)]
    pub fn divide_event_by_midpoint(&mut self, event: Event, point: Point)
        requires
            old(self)@.wf(),
            old(self)@.is_left_event(event),
        ensures
            final(self)@ == old(self)@.divide_event_by_midpoint(event, point@),
            final(self)@.wf(),
            final(self)@.is_pending_at(old(self)@, point@, point@),
            final(self)@.extends(old(self)@),
            final(self)@.queue_follows(old(self)@),
            old(self)@.is_ordered() && old(self)@.is_between(event, point@) ==> final(self)@.is_ordered(),
            forall|other: Event|
                old(self)@.is_left_event(other) && other != event ==> final(self)@.point(other)
                    == old(self)@.point(other) && final(self)@.opposite_point(other) == old(self)@.opposite_point(other),
            final(self)@.point(event) == old(self)@.point(event),
            final(self)@.opposite_point(event) == point@,
            old(self)@.are_parts() && old(self)@.lies_on_segment_of(event, point@) ==> final(self)@.are_parts(),
            old(self)@.is_proper() && old(self)@.is_strictly_between(event, point@) ==> final(self)@.is_proper(),
            old(self)@.keeps_lines() ==> final(self)@.keeps_lines(),
            final(self)@.potential() == old(self)@.potential(),
            final(self)@.endpoints.len() == old(self)@.endpoints.len() + 2,
    {
        let (point_to_event_start_index, point_to_event_end_index) = self.divide(event, point);
        self.push(point_to_event_start_index);
        self.push(point_to_event_end_index);
    }

    /// Splits the segment of a left event at `point`. If the lowest event
    /// above it has the part up to `point` as its segment, that one leaves
    /// the sweep line first and its class is united with that of `event`.
    #[verifier::rlimit(40)]
    pub fn divide_event_by_midpoint_checking_above(&mut self, event: Event, point: Point)
        requires
            old(self)@.wf(),
            old(self)@.is_left_event(event),
        ensures
            final(self)@ == old(self)@.divide_event_by_midpoint_checking_above(event, point@),
            final(self)@.wf(),
            final(self)@.is_pending_at(old(self)@, point@, point@),
            final(self)@.extends(old(self)@),
            final(self)@.queue_follows(old(self)@),
            old(self)@.is_ordered() && old(self)@.is_between(event, point@) ==> final(self)@.is_ordered(),
            old(self)@.are_parts() && old(self)@.lies_on_segment_of(event, point@) ==> final(self)@.are_parts(),
            old(self)@.is_proper() && old(self)@.is_strictly_between(event, point@) ==> final(self)@.is_proper(),
            old(self)@.is_sound() && old(self)@.is_strictly_between(event, point@) && old(self)@.lies_on_segment_of(event, point@) ==> final(self)@.is_sound(),
            forall|other: Event|
                old(self)@.is_left_event(other) && other != event ==> final(self)@.point(other)
                    == old(self)@.point(other) && final(self)@.opposite_point(other) == old(self)@.opposite_point(other),
            final(self)@.potential() == old(self)@.potential(),
            final(self)@.endpoints.len() == old(self)@.endpoints.len() + 2,
    {
        if let Some(above_event) = self.above(event) {
            if self.get_event_start(above_event).equals(self.get_event_start(event))
                && self.get_event_end(above_event).equals(&point) {
                self.remove(above_event);
                self.divide_event_by_midpoint(event, point);
                self.merge_equal_segment_events(event, above_event);
                return ;
            }
        }
        self.divide_event_by_midpoint(event, point);
    }

    /// Two segments on one line overlap without one holding the other:
    /// the later one is cut at the end of the earlier one, the earlier one
    /// at the start of the later one, and the classes of the two common
    /// parts are united.
    #[verifier::rlimit(40)]
    pub fn divide_overlapping_events(
        &mut self,
        min_start_event: Event,
        max_start_event: Event,
        max_start: Point,
        min_end: Point,
    )
        requires
            old(self)@.wf(),
            old(self)@.is_left_event(min_start_event),
            old(self)@.is_left_event(max_start_event),
        ensures
            final(self)@ == old(self)@.divide_overlapping_events(
                min_start_event,
                max_start_event,
                max_start@,
                min_end@,
            ),
            final(self)@.wf(),
            final(self)@.is_pending_at(old(self)@, max_start@, min_end@),
            final(self)@.extends(old(self)@),
            final(self)@.queue_follows(old(self)@),
            old(self)@.is_ordered() && min_start_event != max_start_event && old(self)@.is_between(
                max_start_event,
                min_end@,
            ) && old(self)@.is_between(min_start_event, max_start@) ==> final(self)@.is_ordered(),
            old(self)@.are_parts() && old(self)@.lies_on_segment_of(max_start_event, min_end@)
                && old(self)@.lies_on_segment_of(min_start_event, max_start@) ==> final(self)@.are_parts(),
            old(self)@.is_proper() && min_start_event != max_start_event
                && old(self)@.is_strictly_between(max_start_event, min_end@) && old(self)@.is_strictly_between(min_start_event, max_start@) ==> final(self)@.is_proper(),
            old(self)@.is_sound() && min_start_event != max_start_event
                && old(self)@.is_strictly_between(max_start_event, min_end@) && old(self)@.is_strictly_between(min_start_event, max_start@) && old(self)@.lies_on_segment_of(
                max_start_event,
                min_end@,
            ) && old(self)@.lies_on_segment_of(min_start_event, max_start@) && max_start@ == old(self)@.point(max_start_event) && min_end@ == old(self)@.opposite_point(min_start_event) ==> final(self)@.is_sound(),
            forall|other: Event|
                old(self)@.is_left_event(other) && other != min_start_event && other
                    != max_start_event ==> final(self)@.point(other) == old(self)@.point(other)
                    && final(self)@.opposite_point(other) == old(self)@.opposite_point(other),
            final(self)@.potential() == old(self)@.potential() - 1,
            final(self)@.endpoints.len() == old(self)@.endpoints.len() + 4,
    {
        self.divide_event_by_midpoint(max_start_event, min_end);
        let (max_start_min_start_event, max_start_min_end_event) = self.divide(
            min_start_event,
            max_start,
        );
        self.push(max_start_min_start_event);
        self.merge_equal_segment_events(max_start_event, max_start_min_end_event);
    }

    /// The segment of `event` holds that of `mid_segment_event` in its
    /// interior: it is cut at both of its endpoints, and the class of the
    /// middle part is united with that of `mid_segment_event`.
    #[verifier::rlimit(40)]
    pub fn divide_event_by_mid_segment_event_endpoints(
        &mut self,
        event: Event,
        mid_segment_event: Event,
        mid_segment_event_start: Point,
        mid_segment_event_end: Point,
    )
        requires
            old(self)@.wf(),
            old(self)@.is_left_event(event),
            old(self)@.is_left_event(mid_segment_event),
        ensures
            final(self)@ == old(self)@.divide_event_by_mid_segment_event_endpoints(
                event,
                mid_segment_event,
                mid_segment_event_start@,
                mid_segment_event_end@,
            ),
            final(self)@.wf(),
            final(self)@.is_pending_at(old(self)@, mid_segment_event_start@, mid_segment_event_end@),
            final(self)@.extends(old(self)@),
            final(self)@.queue_follows(old(self)@),
            old(self)@.is_ordered() && old(self)@.is_between(event, mid_segment_event_end@)
                && !point_lt(mid_segment_event_start@, old(self)@.point(event)) && !point_lt(
                mid_segment_event_end@,
                mid_segment_event_start@,
            ) ==> final(self)@.is_ordered(),
            old(self)@.are_parts() && old(self)@.lies_on_segment_of(event, mid_segment_event_end@)
                && old(self)@.lies_on_segment_of(event, mid_segment_event_start@) ==> final(self)@.are_parts(),
            old(self)@.is_proper() && old(self)@.is_strictly_between(event, mid_segment_event_end@)
                && point_lt(old(self)@.point(event), mid_segment_event_start@) && point_lt(
                mid_segment_event_start@,
                mid_segment_event_end@,
            ) ==> final(self)@.is_proper(),
            old(self)@.is_sound() && event != mid_segment_event && old(self)@.is_strictly_between(
                event,
                mid_segment_event_end@,
            ) && point_lt(old(self)@.point(event), mid_segment_event_start@)
                && old(self)@.lies_on_segment_of(event, mid_segment_event_end@) && old(self)@.lies_on_segment_of(event, mid_segment_event_start@) && mid_segment_event_start@
                == old(self)@.point(mid_segment_event) && mid_segment_event_end@ == old(self)@.opposite_point(mid_segment_event) ==> final(self)@.is_sound(),
            forall|other: Event|
                old(self)@.is_left_event(other) && other != event ==> final(self)@.point(other)
                    == old(self)@.point(other) && final(self)@.opposite_point(other) == old(self)@.opposite_point(other),
            final(self)@.potential() == old(self)@.potential() - 1,
            final(self)@.endpoints.len() == old(self)@.endpoints.len() + 4,
    {
        self.divide_event_by_midpoint(event, mid_segment_event_end);
        let (
            inner_subsegment_event_start_to_composite_event_start_index,
            inner_subsegment_event_start_to_inner_subsegment_event_end_index,
        ) = self.divide(event, mid_segment_event_start);
        self.push(inner_subsegment_event_start_to_composite_event_start_index);
        self.merge_equal_segment_events(
            mid_segment_event,
            inner_subsegment_event_start_to_inner_subsegment_event_end_index,
        );
    }

    /// Cuts the segments of two left events, the first below the second
    /// on the sweep line, where they meet.
    #[verifier::rlimit(60)]
    pub fn detect_intersection(&mut self, below_event: Event, event: Event)
        requires
            old(self)@.wf(),
            old(self)@.is_left_event(below_event),
            old(self)@.is_left_event(event),
        ensures
            final(self)@ == old(self)@.detect_intersection(below_event, event),
            final(self)@.wf(),
            old(self)@.is_ordered() ==> final(self)@.is_pending_from(
                old(self)@,
                old(self)@.point(below_event),
            ) && final(self)@.is_pending_from(old(self)@, old(self)@.point(event)),
            final(self)@.extends(old(self)@),
            final(self)@.queue_follows(old(self)@),
            old(self)@.is_ordered() ==> final(self)@.is_ordered(),
            old(self)@.is_proper() && old(self)@.are_parts() && !old(self)@.are_coincident(
                below_event,
                event,
            ) ==> final(self)@.is_proper() && final(self)@.are_parts(),
            old(self)@.is_sound() && !old(self)@.are_coincident(below_event, event) ==> final(self)@.keeps_lines(),
            forall|other: Event|
                old(self)@.is_left_event(other) && other != below_event && other != event
                    ==> final(self)@.point(other) == old(self)@.point(other) && final(self)@.opposite_point(
                    other,
                ) == old(self)@.opposite_point(other),
            final(self)@.potential() <= old(self)@.potential(),
            final(self)@.endpoints.len() >= old(self)@.endpoints.len(),
    {
        let event_start = self.get_event_start(event);
        let event_end = self.get_event_end(event);
        let below_event_start = self.get_event_start(below_event);
        let below_event_end = self.get_event_end(below_event);
        let ghost sound = self@.is_proper() && self@.are_parts() && !self@.are_coincident(
            below_event,
            event,
        );
        proof {
            if sound {
                self@.lemma_proper_pair(below_event, event);
                if lies_on(below_event_start@, below_event_end@, event_start@) {
                    self@.lemma_point_of_part(below_event, event_start@);
                }
                if lies_on(below_event_start@, below_event_end@, event_end@) {
                    self@.lemma_point_of_part(below_event, event_end@);
                }
                if lies_on(event_start@, event_end@, below_event_start@) {
                    self@.lemma_point_of_part(event, below_event_start@);
                }
                if lies_on(event_start@, event_end@, below_event_end@) {
                    self@.lemma_point_of_part(event, below_event_end@);
                }
            }
        }

        let event_start_orientation = orient(below_event_end, below_event_start, event_start);
        let event_end_orientation = orient(below_event_end, below_event_start, event_end);
        if event_start_orientation != Orientation::Collinear && event_end_orientation
            != Orientation::Collinear {
            if event_start_orientation != event_end_orientation {
                let below_event_start_orientation = orient(
                    event_start,
                    event_end,
                    below_event_start,
                );
                let below_event_end_orientation = orient(event_start, event_end, below_event_end);
                if below_event_start_orientation != Orientation::Collinear
                    && below_event_end_orientation != Orientation::Collinear {
                    if below_event_start_orientation != below_event_end_orientation {
                        proof {
                            lemma_orientation_of_reversed(
                                below_event_start@,
                                below_event_end@,
                                event_start@,
                            );
                            lemma_orientation_of_reversed(
                                below_event_start@,
                                below_event_end@,
                                event_end@,
                            );
                            if self@.is_ordered() {
                                assert(!point_lt(
                                    self@.endpoints[self@.opposites[event as int] as int],
                                    self@.endpoints[event as int],
                                ));
                                assert(!point_lt(
                                    self@.endpoints[self@.opposites[below_event as int] as int],
                                    self@.endpoints[below_event as int],
                                ));
                                lemma_crossing_point_between(
                                    event_start@,
                                    event_end@,
                                    below_event_start@,
                                    below_event_end@,
                                );
                            }
                        }
                        let point = intersect_crossing_segments(
                            event_start,
                            event_end,
                            below_event_start,
                            below_event_end,
                        );
                        proof {
                            if sound {
                                lemma_crossing_point_between(
                                    event_start@,
                                    event_end@,
                                    below_event_start@,
                                    below_event_end@,
                                );
                                self@.lemma_point_of_part(below_event, point@);
                                self@.lemma_point_of_part(event, point@);
                            }
                        }
                        self.divide_event_by_midpoint(below_event, point.clone());
                        proof {
                            if sound {
                                self@.lemma_extends_keeps_segments(old(self)@, event, point@);
                            }
                        }
                        self.divide_event_by_midpoint_checking_above(event, point);
                    }
                } else if below_event_start_orientation != Orientation::Collinear {
                    if event_start.less_than(below_event_end) && below_event_end.less_than(
                        event_end,
                    ) {
                        let point = below_event_end.clone();
                        self.divide_event_by_midpoint_checking_above(event, point);
                    }
                } else if event_start.less_than(below_event_start) && below_event_start.less_than(
                    event_end,
                ) {
                    let point = below_event_start.clone();
                    self.divide_event_by_midpoint_checking_above(event, point);
                }
            }
        } else if event_end_orientation != Orientation::Collinear {
            if below_event_start.less_than(event_start) && event_start.less_than(below_event_end) {
                let point = event_start.clone();
                self.divide_event_by_midpoint(below_event, point);
            }
        } else if event_start_orientation != Orientation::Collinear {
            if below_event_start.less_than(event_end) && event_end.less_than(below_event_end) {
                let point = event_end.clone();
                self.divide_event_by_midpoint(below_event, point);
            }
        } else if event_start.equals(below_event_start) {
            let (max_end_event, min_end_event) = if event_end.less_than(below_event_end) {
                (below_event, event)
            } else {
                (event, below_event)
            };
            self.remove(max_end_event);
            let min_end = self.get_event_end(min_end_event).clone();
            proof {
                if sound {
                    self@.lemma_extends_keeps_segments(old(self)@, max_end_event, min_end@);
                }
            }
            let (_, min_end_max_end_event) = self.divide(max_end_event, min_end);
            self.push(min_end_max_end_event);
            self.merge_equal_segment_events(event, below_event);
        } else if event_end.equals(below_event_end) {
            let (max_start_event, min_start_event) = if event_start.less_than(below_event_start) {
                (below_event, event)
            } else {
                (event, below_event)
            };
            let max_start = self.get_event_start(max_start_event).clone();
            let (max_start_to_min_start_event, max_start_to_end_event) = self.divide(
                min_start_event,
                max_start,
            );
            self.push(max_start_to_min_start_event);
            self.merge_equal_segment_events(max_start_event, max_start_to_end_event);
        } else if below_event_start.less_than(event_start) && event_start.less_than(
            below_event_end,
        ) {
            if event_end.less_than(below_event_end) {
                let event_start = event_start.clone();
                let event_end = event_end.clone();
                self.divide_event_by_mid_segment_event_endpoints(
                    below_event,
                    event,
                    event_start,
                    event_end,
                );
            } else {
                let (max_start, min_end) = (event_start.clone(), below_event_end.clone());
                self.divide_overlapping_events(below_event, event, max_start, min_end);
            }
        } else if event_start.less_than(below_event_start) && below_event_start.less_than(
            event_end,
        ) {
            if below_event_end.less_than(event_end) {
                let below_event_start = below_event_start.clone();
                let below_event_end = below_event_end.clone();
                self.divide_event_by_mid_segment_event_endpoints(
                    event,
                    below_event,
                    below_event_start,
                    below_event_end,
                );
            } else {
                let max_start = below_event_start.clone();
                let min_end = event_end.clone();
                self.divide_overlapping_events(event, below_event, max_start, min_end);
            }
        }
    }
}

impl<const UNIQUE: bool> EventsRegistry<UNIQUE> {
    /// Handles a left event taken from the queue; says whether it is new
    /// to the sweep line.
    #[verifier::rlimit(40)]
    fn process_left(&mut self, event: Event) -> (result: bool)
        requires
            old(self)@.wf(),
            old(self)@.is_left_event(event),
        ensures
            (final(self)@, result) == old(self)@.process_left(event),
            final(self)@.wf(),
            old(self)@.is_ordered() ==> final(self)@.is_pending_from(
                old(self)@,
                old(self)@.point(event),
            ),
            final(self)@.extends(old(self)@),
            final(self)@.queue_follows(old(self)@),
            old(self)@.is_ordered() ==> final(self)@.is_ordered(),
            old(self)@.is_proper() && old(self)@.are_parts() ==> final(self)@.is_proper() && final(self)@.are_parts(),
            old(self)@.is_sound() ==> final(self)@.is_sound(),
            final(self)@.potential() <= old(self)@.potential(),
            final(self)@.endpoints.len() >= old(self)@.endpoints.len(),
            !result ==> final(self)@.events_queue == old(self)@.events_queue,
            !result ==> final(self)@.endpoints.len() == old(self)@.endpoints.len(),
    {
        if let Some(equal_segment_event) = self.find(event) {
            proof {
                lemma_equal_position(
                    self@.point(equal_segment_event),
                    self@.opposite_point(equal_segment_event),
                    self@.point(event),
                    self@.opposite_point(event),
                );
            }
            self.merge_equal_segment_events(equal_segment_event, event);
            false
        } else {
            self.insert(event);
            if let Some(below_event) = self.below(event) {
                proof {
                    if self@.are_coincident(below_event, event) {
                        self@.lemma_coincident_compare_equal(below_event, event);
                    }
                }
                self.detect_intersection(below_event, event);
            }
            if let Some(above_event) = self.above(event) {
                proof {
                    if self@.are_coincident(event, above_event) {
                        self@.lemma_coincident_compare_equal(above_event, event);
                    }
                }
                self.detect_intersection(event, above_event);
            }
            true
        }
    }

    /// Handles a right event taken from the queue; says whether its
    /// segment was on the sweep line.
    #[verifier::rlimit(40)]
    fn process_right(&mut self, event: Event) -> (result: bool)
        requires
            old(self)@.wf(),
            old(self)@.is_event(event),
            !is_left(event),
        ensures
            (final(self)@, result) == old(self)@.process_right(event),
            final(self)@.wf(),
            final(self)@.extends(old(self)@),
            final(self)@.queue_follows(old(self)@),
            old(self)@.is_ordered() ==> final(self)@.is_ordered(),
            old(self)@.is_proper() && old(self)@.are_parts() ==> final(self)@.is_proper() && final(self)@.are_parts(),
            old(self)@.is_sound() ==> final(self)@.is_sound(),
            final(self)@.potential() <= old(self)@.potential(),
            final(self)@.endpoints.len() >= old(self)@.endpoints.len(),
            !result ==> final(self)@.events_queue == old(self)@.events_queue,
            !result ==> final(self)@.endpoints.len() == old(self)@.endpoints.len(),
    {
        let event_opposite = self.get_opposite(event);
        if let Some(equal_segment_event) = self.find(event_opposite) {
            proof {
                lemma_equal_position(
                    self@.point(equal_segment_event),
                    self@.opposite_point(equal_segment_event),
                    self@.point(event_opposite),
                    self@.opposite_point(event_opposite),
                );
            }
            let (maybe_above_event, maybe_below_event) = (
                self.above(equal_segment_event),
                self.below(equal_segment_event),
            );
            self.remove(equal_segment_event);
            if let (Some(above_event), Some(below_event)) = (maybe_above_event, maybe_below_event) {
                proof {
                    if self@.are_coincident(below_event, above_event) {
                        assert(old(self)@.line_comparison(below_event, equal_segment_event) == old(self)@.line_comparison(above_event, equal_segment_event));
                    }
                    if old(self)@.are_coincident(below_event, event_opposite) {
                        assert(old(self)@.line_comparison(below_event, equal_segment_event) == old(self)@.line_comparison(event_opposite, equal_segment_event));
                        lemma_same_position(
                            old(self)@.point(equal_segment_event),
                            old(self)@.opposite_point(equal_segment_event),
                        );
                    }
                    if old(self)@.are_coincident(above_event, event_opposite) {
                        assert(old(self)@.line_comparison(above_event, equal_segment_event) == old(self)@.line_comparison(event_opposite, equal_segment_event));
                        lemma_same_position(
                            old(self)@.point(equal_segment_event),
                            old(self)@.opposite_point(equal_segment_event),
                        );
                    }
                }
                self.detect_intersection(below_event, above_event);
            }
            if equal_segment_event != event_opposite {
                self.merge_equal_segment_events(event_opposite, equal_segment_event);
            }
            true
        } else {
            false
        }
    }

    /// Hands out the next event of the sweep, after doing what it asks
    /// for: cutting segments where they meet and uniting the classes of
    /// those that coincide.
    #[verifier::rlimit(40)]
    pub fn next(&mut self) -> (result: Option<Event>)
        requires
            old(self)@.wf(),
        ensures
            (final(self)@, result) == old(self)@.next(UNIQUE),
            final(self)@.wf(),
            final(self)@.extends(old(self)@),
            final(self)@.queue_follows(old(self)@),
            old(self)@.is_ordered() ==> final(self)@.is_ordered(),
            old(self)@.is_proper() && old(self)@.are_parts() ==> final(self)@.is_proper() && final(self)@.are_parts(),
            old(self)@.is_sound() ==> final(self)@.is_sound(),
            final(self)@.potential() <= old(self)@.potential(),
            final(self)@.endpoints.len() >= old(self)@.endpoints.len(),
            result is Some ==> final(self)@.is_event(result->0) && final(self)@.potential() < old(self)@.potential(),
            result is Some ==> {
                let opposite = final(self)@.opposite(result->0);
                &&& final(self)@.is_event(opposite)
                &&& final(self)@.opposite(opposite) == result->0
                &&& is_left(opposite) != is_left(result->0)
            },
            result is Some && old(self)@.is_ordered() ==> !point_lt(
                final(self)@.end(result->0),
                final(self)@.start(result->0),
            ),
            result is Some && old(self)@.is_proper() && old(self)@.are_parts() ==> point_lt(
                final(self)@.start(result->0),
                final(self)@.end(result->0),
            ),
            result is Some && old(self)@.is_ordered() && (is_left(result->0) || final(self)@.endpoints.len() == old(self)@.endpoints.len()) ==> final(self)@.has_none_pending_before(final(self)@.point(result->0)),
            forall|bound: PointView|
                result is Some && #[trigger] old(self)@.has_none_pending_before(bound) ==> !point_lt(
                    final(self)@.point(result->0),
                    bound,
                ),
            !UNIQUE && result is Some ==> result->0 == old(self)@.peek(),
            result is Some ==> old(self)@.events_queue.contains(result->0) && (old(self)@.events_queue.no_duplicates() ==> !final(self)@.events_queue.contains(result->0)),
            result is None ==> final(self)@.events_queue.len() == 0,
    {
        loop
            invariant
                self@.wf(),
                self@.next(UNIQUE) == old(self)@.next(UNIQUE),
                self@.potential() <= old(self)@.potential(),
                self@.endpoints.len() >= old(self)@.endpoints.len(),
                self@.extends(old(self)@),
                old(self)@.is_ordered() ==> self@.is_ordered(),
                old(self)@.is_proper() && old(self)@.are_parts() ==> self@.is_proper()
                    && self@.are_parts(),
                old(self)@.is_sound() ==> self@.is_sound(),
                self@.endpoints.len() == old(self)@.endpoints.len(),
                self@.queue_follows(old(self)@) || self@ == old(self)@,
            decreases self@.events_queue.len(),
        {
            let ghost before = self@;
            let maybe_event = self.pop();
            let ghost taken = self@;
            match maybe_event {
                None => {
                    proof {
                        taken.lemma_queue_follows_on(before, old(self)@);
                    }
                    return None;
                },
                Some(event) => {
                    let took_part = if is_left_event(event) {
                        self.process_left(event)
                    } else {
                        self.process_right(event)
                    };
                    proof {
                        before.lemma_pop_wf();
                        assert((self@, took_part) == before.process_next());
                        self@.lemma_queue_follows_on(taken, before);
                        self@.lemma_queue_follows_on(before, old(self)@);
                        if before.events_queue.no_duplicates() {
                            self@.lemma_never_pending_again(taken, event);
                        }
                        if !old(self)@.events_queue.contains(event) {
                            old(self)@.lemma_queue_follows_same(old(self)@, old(self)@);
                            before.lemma_never_pending_again(old(self)@, event);
                        }
                    }
                    if !UNIQUE || took_part {
                        proof {
                            self@.lemma_opposites_pair(event);
                            self@.lemma_start_before_end(event);
                            assert forall|bound: PointView| #[trigger]
                                old(self)@.has_none_pending_before(bound) implies !point_lt(
                                self@.point(event),
                                bound,
                            ) by {
                                let at = choose|at: int|
                                    0 <= at < old(self)@.events_queue.len() && old(self)@.events_queue[at] == event;
                                assert(old(self)@.events_queue[at] == event);
                                assert(self@.endpoints[event as int] == old(self)@.endpoints[event as int]);
                            }
                            if before.is_ordered() && (is_left(event) || self@.endpoints.len()
                                == before.endpoints.len()) {
                                if !is_left(event) {
                                    assert forall|index: int|
                                        0 <= index
                                            < self@.events_queue.len() implies taken.events_queue.contains(
                                        #[trigger] self@.events_queue[index],
                                    ) by {
                                        assert(self@.is_event(self@.events_queue[index]));
                                    }
                                }
                                before.lemma_none_pending_before(self@);
                            }
                        }
                        return Some(event);
                    }
                },
            }
        }
    }
}

} // verus!
