//! Intersections of segments, reported point by point.

use crate::bentley_ottmann::event::{is_left, Event};
use crate::bentley_ottmann::events_registry::{initial_view, EventsRegistry, RegistryView};
use crate::geometries::{are_proper, point_lt, Point, PointView, Segment, SegmentView};
use crate::incidence::lies_on;
use crate::operations::lemma_endpoints_collinear;
use crate::relatable::Relation;
use vstd::prelude::*;

verus! {

/// Two input segments that share a point or a part.
pub struct Intersection {
    pub first_segment_id: usize,
    pub second_segment_id: usize,
    pub relation: Relation,
    pub start: Point,
    pub end: Point,
}

pub struct IntersectionView {
    pub first_segment_id: usize,
    pub second_segment_id: usize,
    pub relation: Relation,
    pub start: PointView,
    pub end: PointView,
}

impl View for Intersection {
    type V = IntersectionView;

    open spec fn view(&self) -> IntersectionView {
        IntersectionView {
            first_segment_id: self.first_segment_id,
            second_segment_id: self.second_segment_id,
            relation: self.relation,
            start: self.start@,
            end: self.end@,
        }
    }
}

/// `ids` with `id` added, unless it is there.
pub open spec fn with_id(ids: Seq<usize>, id: usize) -> Seq<usize> {
    if ids.contains(id) {
        ids
    } else {
        ids.push(id)
    }
}

/// Each pair of two members of `ids` once, the earlier member first;
/// pairs with an earlier second member come first.
pub open spec fn pairs_of(ids: Seq<usize>) -> Seq<(usize, usize)>
    decreases ids.len(),
{
    if ids.len() < 2 {
        Seq::empty()
    } else {
        pairs_of(ids.drop_last()) + Seq::new(
            (ids.len() - 1) as nat,
            |index: int| (ids[index], ids.last()),
        )
    }
}

/// Adding an identifier that is not there repeats none.
pub proof fn lemma_with_id_no_duplicates(ids: Seq<usize>, id: usize)
    requires
        ids.no_duplicates(),
    ensures
        with_id(ids, id).no_duplicates(),
{
    if !ids.contains(id) {
        let added = ids.push(id);
        assert forall|first: int, second: int|
            0 <= first < added.len() && 0 <= second < added.len() && first != second implies added[first]
            != added[second] by {
            if first < ids.len() && second < ids.len() {
                assert(ids[first] != ids[second]);
            } else if first < ids.len() {
                assert(ids.contains(ids[first]));
            } else {
                assert(ids.contains(ids[second]));
            }
        }
    }
}

/// The pairs of identifiers without repetition pair different ones.
pub proof fn lemma_pairs_of_distinct(ids: Seq<usize>)
    requires
        ids.no_duplicates(),
    ensures
        forall|index: int|
            0 <= index < pairs_of(ids).len() ==> (#[trigger] pairs_of(ids)[index]).0 != pairs_of(
                ids,
            )[index].1,
    decreases ids.len(),
{
    if ids.len() >= 2 {
        let front = ids.drop_last();
        assert forall|first: int, second: int|
            0 <= first < front.len() && 0 <= second < front.len() && first != second implies front[first]
            != front[second] by {
            assert(ids[first] != ids[second]);
        }
        lemma_pairs_of_distinct(front);
        let last_pairs = Seq::new((ids.len() - 1) as nat, |index: int| (ids[index], ids.last()));
        assert forall|index: int| 0 <= index < pairs_of(ids).len() implies (#[trigger] pairs_of(
            ids,
        )[index]).0 != pairs_of(ids)[index].1 by {
            if index < pairs_of(front).len() {
                assert(pairs_of(ids)[index] == pairs_of(front)[index]);
            } else {
                let at = index - pairs_of(front).len();
                assert(pairs_of(ids)[index] == last_pairs[at]);
                assert(ids[at] != ids[ids.len() - 1]);
            }
        }
    }
}

/// Both members of each pair are members of `ids`.
pub proof fn lemma_pairs_of_members(ids: Seq<usize>)
    ensures
        forall|index: int|
            0 <= index < pairs_of(ids).len() ==> ids.contains((#[trigger] pairs_of(ids)[index]).0)
                && ids.contains(pairs_of(ids)[index].1),
    decreases ids.len(),
{
    if ids.len() >= 2 {
        let front = ids.drop_last();
        lemma_pairs_of_members(front);
        let last_pairs = Seq::new((ids.len() - 1) as nat, |index: int| (ids[index], ids.last()));
        assert forall|index: int| 0 <= index < pairs_of(ids).len() implies ids.contains(
            (#[trigger] pairs_of(ids)[index]).0,
        ) && ids.contains(pairs_of(ids)[index].1) by {
            if index < pairs_of(front).len() {
                let pair = pairs_of(front)[index];
                assert(pairs_of(ids)[index] == pair);
                assert(front.contains(pair.0) && front.contains(pair.1));
                let first_at = choose|at: int| 0 <= at < front.len() && front[at] == pair.0;
                let second_at = choose|at: int| 0 <= at < front.len() && front[at] == pair.1;
                assert(ids[first_at] == pair.0);
                assert(ids[second_at] == pair.1);
            } else {
                let at = index - pairs_of(front).len();
                assert(pairs_of(ids)[index] == last_pairs[at]);
                assert(ids[at] == pairs_of(ids)[index].0);
                assert(ids[ids.len() - 1] == pairs_of(ids)[index].1);
            }
        }
    }
}

/// How the first of two segments on one line that share a part lies with
/// respect to the second.
pub open spec fn overlap_relation(
    first_start: PointView,
    first_end: PointView,
    second_start: PointView,
    second_end: PointView,
) -> Relation {
    if first_start == second_start {
        if first_end == second_end {
            Relation::Equal
        } else if point_lt(first_end, second_end) {
            Relation::Component
        } else {
            Relation::Composite
        }
    } else if first_end == second_end {
        if point_lt(second_start, first_start) {
            Relation::Component
        } else {
            Relation::Composite
        }
    } else if point_lt(first_start, second_start) && point_lt(second_end, first_end) {
        Relation::Composite
    } else if point_lt(second_start, first_start) && point_lt(first_end, second_end) {
        Relation::Component
    } else {
        Relation::Overlap
    }
}

/// The intersection of two input segments that both hold `point`. Segments
/// of one class that share more than a point are related by the part that
/// they share; others touch at `point` if it is an endpoint of one of
/// them, and cross there if it is not.
pub open spec fn intersection_at(
    registry: RegistryView,
    point: PointView,
    first_segment_id: usize,
    second_segment_id: usize,
) -> IntersectionView {
    let first_start = registry.endpoints[2 * first_segment_id];
    let first_end = registry.endpoints[2 * first_segment_id + 1];
    let second_start = registry.endpoints[2 * second_segment_id];
    let second_end = registry.endpoints[2 * second_segment_id + 1];
    let max_start = if point_lt(first_start, second_start) {
        second_start
    } else {
        first_start
    };
    let min_end = if point_lt(first_end, second_end) {
        first_end
    } else {
        second_end
    };
    if registry.are_collinear(first_segment_id, second_segment_id) && point_lt(
        max_start,
        min_end,
    ) {
        IntersectionView {
            first_segment_id,
            second_segment_id,
            relation: overlap_relation(first_start, first_end, second_start, second_end),
            start: max_start,
            end: min_end,
        }
    } else {
        IntersectionView {
            first_segment_id,
            second_segment_id,
            relation: if point == first_start || point == first_end || point == second_start
                || point == second_end {
                Relation::Touch
            } else {
                Relation::Cross
            },
            start: point,
            end: point,
        }
    }
}

/// The input segments of the events handed out from `registry` on while
/// their point is `point`, added to `ids`; with them the state at which
/// this ends, and the first event at another point, if it was reached.
/// At most `steps` events are taken.
pub open spec fn gathered(registry: RegistryView, point: PointView, ids: Seq<usize>, steps: nat) -> (
    RegistryView,
    Seq<usize>,
    Option<Event>,
)
    decreases steps,
{
    if steps == 0 {
        (registry, ids, None)
    } else {
        let (next_registry, maybe_event) = registry.next(false);
        match maybe_event {
            None => (next_registry, ids, None),
            Some(event) => if next_registry.point(event) == point {
                gathered(
                    next_registry,
                    point,
                    with_id(ids, next_registry.event_segment_id(event)),
                    (steps - 1) as nat,
                )
            } else {
                (next_registry, ids, Some(event))
            },
        }
    }
}

/// The input segment holds the point.
pub open spec fn segment_holds(registry: RegistryView, segment_id: usize, point: PointView) -> bool {
    lies_on(registry.segment_start(segment_id), registry.segment_end(segment_id), point)
}

/// Each of the input segments holds the point.
pub open spec fn segments_hold(registry: RegistryView, ids: Seq<usize>, point: PointView) -> bool {
    forall|index: int|
        0 <= index < ids.len() ==> segment_holds(registry, #[trigger] ids[index], point)
}

/// The point of an event lies on the input segment that the event
/// descends from.
pub proof fn lemma_event_point_on_segment(registry: RegistryView, event: Event)
    requires
        registry.wf(),
        registry.are_parts(),
        registry.is_event(event),
    ensures
        segment_holds(registry, registry.event_segment_id(event), registry.point(event)),
{
    registry.lemma_opposites_pair(event);
    if is_left(event) {
        registry.lemma_parts_of(event);
    } else {
        registry.lemma_parts_of(registry.opposite(event));
    }
}

/// A later state has the same input segments.
pub proof fn lemma_segments_hold_on(
    registry: RegistryView,
    earlier: RegistryView,
    ids: Seq<usize>,
    point: PointView,
)
    requires
        earlier.wf(),
        registry.extends(earlier),
        segments_hold(earlier, ids, point),
        forall|index: int|
            0 <= index < ids.len() ==> (#[trigger] ids[index])
                < earlier.min_collinear_segments_ids.len(),
    ensures
        segments_hold(registry, ids, point),
{
    assert forall|index: int| 0 <= index < ids.len() implies segment_holds(
        registry,
        #[trigger] ids[index],
        point,
    ) by {
        let id = ids[index];
        assert(segment_holds(earlier, id, point));
        assert(registry.endpoints[2 * id] == earlier.endpoints[2 * id]);
        assert(registry.endpoints[2 * id + 1] == earlier.endpoints[2 * id + 1]);
    }
}

/// One more input segment that holds the point.
pub proof fn lemma_with_id_holds(
    registry: RegistryView,
    ids: Seq<usize>,
    id: usize,
    point: PointView,
)
    requires
        segments_hold(registry, ids, point),
        segment_holds(registry, id, point),
    ensures
        segments_hold(registry, with_id(ids, id), point),
{
    let added = with_id(ids, id);
    assert forall|index: int| 0 <= index < added.len() implies segment_holds(
        registry,
        #[trigger] added[index],
        point,
    ) by {
        if index < ids.len() {
            assert(added[index] == ids[index]);
        }
    }
}

/// Both members of each pair of input segments that hold the point hold
/// it.
pub proof fn lemma_pairs_hold(registry: RegistryView, ids: Seq<usize>, point: PointView)
    requires
        segments_hold(registry, ids, point),
    ensures
        forall|index: int|
            0 <= index < pairs_of(ids).len() ==> segment_holds(
                registry,
                (#[trigger] pairs_of(ids)[index]).0,
                point,
            ) && segment_holds(registry, pairs_of(ids)[index].1, point),
{
    lemma_pairs_of_members(ids);
    assert forall|index: int| 0 <= index < pairs_of(ids).len() implies segment_holds(
        registry,
        (#[trigger] pairs_of(ids)[index]).0,
        point,
    ) && segment_holds(registry, pairs_of(ids)[index].1, point) by {
        let pair = pairs_of(ids)[index];
        let first_at = choose|at: int| 0 <= at < ids.len() && ids[at] == pair.0;
        let second_at = choose|at: int| 0 <= at < ids.len() && ids[at] == pair.1;
        assert(segment_holds(registry, ids[first_at], point));
        assert(segment_holds(registry, ids[second_at], point));
    }
}

/// The intersections that are a single point are the touches and the
/// crossings; the others are a part from a smaller to a larger point.
pub open spec fn is_point_or_part(intersection: IntersectionView) -> bool {
    if intersection.relation == Relation::Touch || intersection.relation == Relation::Cross {
        intersection.start == intersection.end
    } else {
        point_lt(intersection.start, intersection.end)
    }
}

/// What is reported of two segments at a point is a point or a part.
pub proof fn lemma_intersection_at(
    registry: RegistryView,
    point: PointView,
    first_segment_id: usize,
    second_segment_id: usize,
)
    ensures
        is_point_or_part(intersection_at(registry, point, first_segment_id, second_segment_id)),
{
}

/// Both input segments hold both ends of the intersection.
pub open spec fn is_held_by_both(registry: RegistryView, intersection: IntersectionView) -> bool {
    &&& segment_holds(registry, intersection.first_segment_id, intersection.start)
    &&& segment_holds(registry, intersection.first_segment_id, intersection.end)
    &&& segment_holds(registry, intersection.second_segment_id, intersection.start)
    &&& segment_holds(registry, intersection.second_segment_id, intersection.end)
}

/// What is reported of two input segments at a point that both hold is
/// held by both.
pub proof fn lemma_intersection_at_is_held(
    registry: RegistryView,
    point: PointView,
    first_segment_id: usize,
    second_segment_id: usize,
)
    requires
        registry.wf(),
        registry.is_sound(),
        first_segment_id < registry.min_collinear_segments_ids.len(),
        second_segment_id < registry.min_collinear_segments_ids.len(),
        segment_holds(registry, first_segment_id, point),
        segment_holds(registry, second_segment_id, point),
    ensures
        is_held_by_both(
            registry,
            intersection_at(registry, point, first_segment_id, second_segment_id),
        ),
{
    let first_start = registry.segment_start(first_segment_id);
    let first_end = registry.segment_end(first_segment_id);
    let second_start = registry.segment_start(second_segment_id);
    let second_end = registry.segment_end(second_segment_id);
    registry.lemma_input_segment_proper(first_segment_id);
    registry.lemma_input_segment_proper(second_segment_id);
    lemma_endpoints_collinear(first_start, first_end);
    lemma_endpoints_collinear(second_start, second_end);
    if registry.are_collinear(first_segment_id, second_segment_id) {
        registry.lemma_class_on_line(first_segment_id, second_segment_id);
        registry.lemma_class_on_line(second_segment_id, first_segment_id);
    }
}

/// Mathematical state of a sweep that reports intersections.
pub struct SweepView {
    pub registry: RegistryView,
    /// An event taken from the registry whose point was not reported yet.
    pub next_start_event: Option<Event>,
    /// The pairs of input segments at the current point that are still to
    /// be reported, the next one last.
    pub segments_ids_pairs: Seq<(usize, usize)>,
    /// An event at the current point.
    pub start_event: Event,
}

impl SweepView {
    pub open spec fn wf(self) -> bool {
        &&& self.registry.wf()
        &&& match self.next_start_event {
            Some(event) => self.registry.is_event(event),
            None => true,
        }
        &&& self.segments_ids_pairs.len() > 0 ==> self.registry.is_event(self.start_event)
        &&& forall|index: int|
            0 <= index < self.segments_ids_pairs.len() ==> {
                &&& (#[trigger] self.segments_ids_pairs[index]).0
                    < self.registry.min_collinear_segments_ids.len()
                &&& self.segments_ids_pairs[index].1
                    < self.registry.min_collinear_segments_ids.len()
                &&& self.segments_ids_pairs[index].0 != self.segments_ids_pairs[index].1
            }
    }

    /// No segment of the registry is a single point, each is a part of
    /// its input segment, the classes are of input segments on one line,
    /// and the input segments of the pairs still to be reported hold the
    /// current point.
    pub open spec fn is_sound(self) -> bool {
        &&& self.registry.is_sound()
        &&& forall|index: int|
            0 <= index < self.segments_ids_pairs.len() ==> segment_holds(
                self.registry,
                (#[trigger] self.segments_ids_pairs[index]).0,
                self.registry.point(self.start_event),
            ) && segment_holds(
                self.registry,
                self.segments_ids_pairs[index].1,
                self.registry.point(self.start_event),
            )
    }

    /// What bounds the number of points still to come, and one more.
    pub open spec fn budget(self) -> nat {
        (2 * self.registry.potential() + if self.next_start_event is Some {
            2int
        } else {
            1int
        }) as nat
    }

    /// The state at the next point with events, if there is one: the
    /// registry has handed out every event there, and each pair of the
    /// input segments of those events is to be reported.
    pub open spec fn at_next_point(self) -> Option<Self> {
        let (registry, maybe_start_event) = match self.next_start_event {
            Some(event) => (self.registry, Some(event)),
            None => self.registry.next(false),
        };
        match maybe_start_event {
            None => None,
            Some(start_event) => {
                let (gathered_registry, ids, next_start_event) = gathered(
                    registry,
                    registry.point(start_event),
                    seq![registry.event_segment_id(start_event)],
                    registry.potential() as nat,
                );
                Some(
                    SweepView {
                        registry: gathered_registry,
                        next_start_event,
                        segments_ids_pairs: pairs_of(ids),
                        start_event,
                    },
                )
            },
        }
    }

    /// The state when no event is left.
    pub open spec fn exhausted(self) -> Self {
        SweepView {
            registry: match self.next_start_event {
                Some(_) => self.registry,
                None => self.registry.next(false).0,
            },
            next_start_event: None,
            ..self
        }
    }

    /// The next intersection, and the state after it was reported: the
    /// last pair still to be reported at the current point, or else at the
    /// next point that has one. At most `steps` points are visited.
    #[verifier::opaque]
    pub open spec fn next(self, steps: nat) -> (Self, Option<IntersectionView>)
        decreases steps,
    {
        if self.segments_ids_pairs.len() > 0 {
            (
                SweepView { segments_ids_pairs: self.segments_ids_pairs.drop_last(), ..self },
                Some(
                    intersection_at(
                        self.registry,
                        self.registry.point(self.start_event),
                        self.segments_ids_pairs.last().0,
                        self.segments_ids_pairs.last().1,
                    ),
                ),
            )
        } else if steps == 0 {
            (self, None)
        } else {
            match self.at_next_point() {
                None => (self.exhausted(), None),
                Some(state) => state.next((steps - 1) as nat),
            }
        }
    }
}

impl SweepView {
    /// With no pair left at the current point, the next intersection is
    /// the first one from the next point on.
    pub proof fn lemma_next_without_pairs(self, steps: nat)
        requires
            self.segments_ids_pairs.len() == 0,
            steps > 0,
        ensures
            self.next(steps) == match self.at_next_point() {
                None => (self.exhausted(), None::<IntersectionView>),
                Some(state) => state.next((steps - 1) as nat),
            },
    {
        reveal(SweepView::next);
    }

    /// A pair left at the current point is reported next.
    pub proof fn lemma_next_with_pairs(self, steps: nat)
        requires
            self.segments_ids_pairs.len() > 0,
        ensures
            self.next(steps) == (
                SweepView { segments_ids_pairs: self.segments_ids_pairs.drop_last(), ..self },
                Some(
                    intersection_at(
                        self.registry,
                        self.registry.point(self.start_event),
                        self.segments_ids_pairs.last().0,
                        self.segments_ids_pairs.last().1,
                    ),
                ),
            ),
    {
        reveal(SweepView::next);
    }
}

/// The state that a sweep over `segments` starts from.
pub open spec fn initial_sweep_view(segments: Seq<SegmentView>) -> SweepView {
    SweepView {
        registry: initial_view(segments),
        next_start_event: None,
        segments_ids_pairs: Seq::empty(),
        start_event: 0,
    }
}

/// A sweep over segments that reports the pairs of them that meet.
pub struct Sweep {
    events_registry: EventsRegistry<false>,
    next_start_event: Option<Event>,
    segments_ids_pairs: Vec<(usize, usize)>,
    start_event: Event,
}

impl View for Sweep {
    type V = SweepView;

    closed spec fn view(&self) -> SweepView {
        SweepView {
            registry: self.events_registry@,
            next_start_event: self.next_start_event,
            segments_ids_pairs: self.segments_ids_pairs@,
            start_event: self.start_event,
        }
    }
}

/// Adds `id` to `ids`, unless it is there.
fn push_unique(ids: &mut Vec<usize>, id: usize)
    ensures
        final(ids)@ == with_id(old(ids)@, id),
{
    let mut index: usize = 0;
    while index < ids.len()
        invariant
            index <= ids.len(),
            ids@ == old(ids)@,
            forall|other: int| 0 <= other < index ==> ids@[other] != id,
        decreases ids.len() - index,
    {
        if ids[index] == id {
            return ;
        }
        index += 1;
    }
    ids.push(id);
}

/// Each pair of two members of `ids`.
#[verifier::rlimit(40)]
fn to_pairs(ids: &Vec<usize>) -> (result: Vec<(usize, usize)>)
    ensures
        result@ == pairs_of(ids@),
{
    let mut result: Vec<(usize, usize)> = Vec::new();
    let mut second: usize = 1;
    while second < ids.len()
        invariant
            1 <= second,
            second <= ids.len() || ids.len() < 2,
            ids.len() >= 2 ==> result@ == pairs_of(ids@.take(second as int)),
            ids.len() < 2 ==> result@ == Seq::<(usize, usize)>::empty(),
        decreases ids.len() - second,
    {
        let ghost before = result@;
        let mut first: usize = 0;
        while first < second
            invariant
                first <= second < ids.len(),
                result@ == before + Seq::new(
                    first as nat,
                    |index: int| (ids@[index], ids@[second as int]),
                ),
            decreases second - first,
        {
            result.push((ids[first], ids[second]));
            proof {
                assert(result@ =~= before + Seq::new(
                    (first + 1) as nat,
                    |index: int| (ids@[index], ids@[second as int]),
                ));
            }
            first += 1;
        }
        proof {
            let prefix = ids@.take(second + 1);
            assert(prefix.drop_last() =~= ids@.take(second as int));
            assert(prefix.last() == ids@[second as int]);
            assert(Seq::new(second as nat, |index: int| (ids@[index], ids@[second as int]))
                =~= Seq::new((prefix.len() - 1) as nat, |index: int| (prefix[index], prefix.last())));
        }
        second += 1;
    }
    proof {
        if ids.len() >= 2 {
            assert(ids@.take(second as int) =~= ids@);
        }
    }
    result
}

impl Sweep {
    pub fn from(segments: &Vec<Segment>) -> (result: Self)
        ensures
            result@ == initial_sweep_view(segments.deep_view()),
            result@.wf(),
            are_proper(segments.deep_view()) ==> result@.is_sound(),
    {
        Self {
            events_registry: EventsRegistry::from(segments),
            next_start_event: None,
            segments_ids_pairs: Vec::new(),
            start_event: 0,
        }
    }

    /// The larger endpoint of an input segment.
    pub fn get_segment_end(&self, segment_id: usize) -> (result: &Point)
        requires
            self@.wf(),
            segment_id < self@.registry.segments_ids.len(),
        ensures
            result@ == self@.registry.endpoints[2 * segment_id + 1],
    {
        self.events_registry.get_segment_end(segment_id)
    }

    /// The smaller endpoint of an input segment.
    pub fn get_segment_start(&self, segment_id: usize) -> (result: &Point)
        requires
            self@.wf(),
            segment_id < self@.registry.segments_ids.len(),
        ensures
            result@ == self@.registry.endpoints[2 * segment_id],
    {
        self.events_registry.get_segment_start(segment_id)
    }
}

impl Sweep {
    /// Takes events from the registry while they are at `point`, adding
    /// their input segments to `ids`; returns the first event at another
    /// point, if there is one.
    #[verifier::rlimit(40)]
    fn gather(&mut self, point: &Point, ids: &mut Vec<usize>) -> (result: Option<Event>)
        requires
            old(self)@.wf(),
            old(ids)@.no_duplicates(),
            forall|index: int|
                0 <= index < old(ids)@.len() ==> (#[trigger] old(ids)@[index]) < old(self)@.registry.min_collinear_segments_ids.len(),
        ensures
            final(ids)@.no_duplicates(),
            old(self)@.registry.is_sound() && segments_hold(
                old(self)@.registry,
                old(ids)@,
                point@,
            ) ==> final(self)@.registry.is_sound() && segments_hold(
                final(self)@.registry,
                final(ids)@,
                point@,
            ),
            (final(self)@.registry, final(ids)@, result) == gathered(
                old(self)@.registry,
                point@,
                old(ids)@,
                old(self)@.registry.potential() as nat,
            ),
            final(self)@.registry.wf(),
            final(self)@.registry.extends(old(self)@.registry),
            final(self)@.registry.potential() <= old(self)@.registry.potential(),
            result is Some ==> final(self)@.registry.is_event(result->0) && final(self)@.registry.potential() < old(self)@.registry.potential(),
            final(self)@.next_start_event == old(self)@.next_start_event,
            final(self)@.segments_ids_pairs == old(self)@.segments_ids_pairs,
            final(self)@.start_event == old(self)@.start_event,
            forall|index: int|
                0 <= index < final(ids)@.len() ==> (#[trigger] final(ids)@[index]) < final(self)@.registry.min_collinear_segments_ids.len(),
    {
        let ghost mut steps: nat = self@.registry.potential() as nat;
        loop
            invariant
                self@.registry.wf(),
                self@.registry.extends(old(self)@.registry),
                self@.registry.potential() <= steps,
                self@.registry.potential() <= old(self)@.registry.potential(),
                ids@.no_duplicates(),
                old(self)@.registry.is_sound() && segments_hold(
                    old(self)@.registry,
                    old(ids)@,
                    point@,
                ) ==> self@.registry.is_sound() && segments_hold(self@.registry, ids@, point@),
                gathered(self@.registry, point@, ids@, steps) == gathered(
                    old(self)@.registry,
                    point@,
                    old(ids)@,
                    old(self)@.registry.potential() as nat,
                ),
                self@.next_start_event == old(self)@.next_start_event,
                self@.segments_ids_pairs == old(self)@.segments_ids_pairs,
                self@.start_event == old(self)@.start_event,
                forall|index: int|
                    0 <= index < ids@.len() ==> (#[trigger] ids@[index])
                        < self@.registry.min_collinear_segments_ids.len(),
            decreases self@.registry.potential(),
        {
            let ghost before = self@.registry;
            let ghost gathered_ids = ids@;
            let ghost sound = before.is_sound() && segments_hold(before, gathered_ids, point@);
            let maybe_event = self.events_registry.next();
            proof {
                if sound {
                    lemma_segments_hold_on(self@.registry, before, gathered_ids, point@);
                }
            }
            match maybe_event {
                None => {
                    return None;
                },
                Some(event) => {
                    if self.events_registry.get_event_point(event).equals(point) {
                        let segment_id = self.events_registry.get_event_segment_id(event);
                        push_unique(ids, segment_id);
                        proof {
                            lemma_with_id_no_duplicates(gathered_ids, segment_id);
                            if sound {
                                lemma_event_point_on_segment(self@.registry, event);
                                lemma_with_id_holds(
                                    self@.registry,
                                    gathered_ids,
                                    segment_id,
                                    point@,
                                );
                            }
                            steps = (steps - 1) as nat;
                        }
                    } else {
                        return Some(event);
                    }
                },
            }
        }
    }

    /// Moves on to the next point with events, if there is one; says
    /// whether there was.
    #[verifier::rlimit(50)]
    fn populate_segments_ids_pairs(&mut self) -> (result: bool)
        requires
            old(self)@.wf(),
            old(self)@.segments_ids_pairs.len() == 0,
        ensures
            result == (old(self)@.at_next_point() is Some),
            result ==> final(self)@ == old(self)@.at_next_point()->0 && final(self)@.budget() < old(self)@.budget(),
            !result ==> final(self)@ == old(self)@.exhausted(),
            final(self)@.wf(),
            final(self)@.registry.extends(old(self)@.registry),
            old(self)@.registry.is_sound() ==> final(self)@.is_sound(),
    {
        let ghost sound = self@.registry.is_sound();
        let maybe_start_event = match self.next_start_event {
            Some(event) => Some(event),
            None => self.events_registry.next(),
        };
        self.next_start_event = None;
        match maybe_start_event {
            None => false,
            Some(start_event) => {
                let point = self.events_registry.get_event_point(start_event).clone();
                let mut ids: Vec<usize> = Vec::new();
                ids.push(self.events_registry.get_event_segment_id(start_event));
                proof {
                    assert(ids@ =~= seq![self@.registry.event_segment_id(start_event)]);
                    if sound {
                        lemma_event_point_on_segment(self@.registry, start_event);
                    }
                }
                let next_start_event = self.gather(&point, &mut ids);
                self.next_start_event = next_start_event;
                self.segments_ids_pairs = to_pairs(&ids);
                self.start_event = start_event;
                proof {
                    lemma_pairs_of_members(ids@);
                    lemma_pairs_of_distinct(ids@);
                    if sound {
                        lemma_pairs_hold(self@.registry, ids@, point@);
                        assert(self@.registry.point(start_event) == point@);
                    }
                }
                true
            },
        }
    }

    /// The intersection of two input segments at the current point.
    #[verifier::rlimit(40)]
    fn to_intersection(&self, first_segment_id: usize, second_segment_id: usize) -> (result:
        Intersection)
        requires
            self@.wf(),
            self@.registry.is_event(self@.start_event),
            first_segment_id < self@.registry.min_collinear_segments_ids.len(),
            second_segment_id < self@.registry.min_collinear_segments_ids.len(),
        ensures
            result@ == intersection_at(
                self@.registry,
                self@.registry.point(self@.start_event),
                first_segment_id,
                second_segment_id,
            ),
            result.first_segment_id == first_segment_id,
            result.second_segment_id == second_segment_id,
            result.relation == Relation::Touch || result.relation == Relation::Cross
                ==> result.start@ == self@.registry.point(self@.start_event) && result.end@
                == result.start@,
            self@.registry.is_sound() && segment_holds(
                self@.registry,
                first_segment_id,
                self@.registry.point(self@.start_event),
            ) && segment_holds(
                self@.registry,
                second_segment_id,
                self@.registry.point(self@.start_event),
            ) ==> is_held_by_both(self@.registry, result@),
    {
        proof {
            if self@.registry.is_sound() && segment_holds(
                self@.registry,
                first_segment_id,
                self@.registry.point(self@.start_event),
            ) && segment_holds(
                self@.registry,
                second_segment_id,
                self@.registry.point(self@.start_event),
            ) {
                lemma_intersection_at_is_held(
                    self@.registry,
                    self@.registry.point(self@.start_event),
                    first_segment_id,
                    second_segment_id,
                );
            }
        }
        let point = self.events_registry.get_event_point(self.start_event);
        let first_start = self.events_registry.get_segment_start(first_segment_id);
        let first_end = self.events_registry.get_segment_end(first_segment_id);
        let second_start = self.events_registry.get_segment_start(second_segment_id);
        let second_end = self.events_registry.get_segment_end(second_segment_id);
        let max_start = if first_start.less_than(second_start) {
            second_start
        } else {
            first_start
        };
        let min_end = if first_end.less_than(second_end) {
            first_end
        } else {
            second_end
        };
        if self.events_registry.are_collinear(first_segment_id, second_segment_id)
            && max_start.less_than(min_end) {
            let relation = if first_start.equals(second_start) {
                if first_end.equals(second_end) {
                    Relation::Equal
                } else if first_end.less_than(second_end) {
                    Relation::Component
                } else {
                    Relation::Composite
                }
            } else if first_end.equals(second_end) {
                if second_start.less_than(first_start) {
                    Relation::Component
                } else {
                    Relation::Composite
                }
            } else if first_start.less_than(second_start) && second_end.less_than(first_end) {
                Relation::Composite
            } else if second_start.less_than(first_start) && first_end.less_than(second_end) {
                Relation::Component
            } else {
                Relation::Overlap
            };
            Intersection {
                first_segment_id,
                second_segment_id,
                relation,
                start: max_start.clone(),
                end: min_end.clone(),
            }
        } else {
            let relation = if point.equals(first_start) || point.equals(first_end) || point.equals(
                second_start,
            ) || point.equals(second_end) {
                Relation::Touch
            } else {
                Relation::Cross
            };
            Intersection {
                first_segment_id,
                second_segment_id,
                relation,
                start: point.clone(),
                end: point.clone(),
            }
        }
    }

    /// Reports the last pair still to be reported at the current point.
    #[verifier::rlimit(40)]
    fn report(&mut self) -> (result: Intersection)
        requires
            old(self)@.wf(),
            old(self)@.segments_ids_pairs.len() > 0,
        ensures
            final(self)@ == (SweepView {
                segments_ids_pairs: old(self)@.segments_ids_pairs.drop_last(),
                ..old(self)@
            }),
            result@ == intersection_at(
                old(self)@.registry,
                old(self)@.registry.point(old(self)@.start_event),
                old(self)@.segments_ids_pairs.last().0,
                old(self)@.segments_ids_pairs.last().1,
            ),
            final(self)@.wf(),
            result.first_segment_id < old(self)@.registry.min_collinear_segments_ids.len(),
            result.second_segment_id < old(self)@.registry.min_collinear_segments_ids.len(),
            result.first_segment_id != result.second_segment_id,
            is_point_or_part(result@),
            old(self)@.is_sound() ==> final(self)@.is_sound() && is_held_by_both(
                final(self)@.registry,
                result@,
            ),
    {
        let count = self.segments_ids_pairs.len();
        let (first_segment_id, second_segment_id) = self.segments_ids_pairs[count - 1];
        let intersection = self.to_intersection(first_segment_id, second_segment_id);
        self.segments_ids_pairs.pop();
        proof {
            lemma_intersection_at(
                old(self)@.registry,
                old(self)@.registry.point(old(self)@.start_event),
                first_segment_id,
                second_segment_id,
            );
            assert(self@.segments_ids_pairs =~= old(self)@.segments_ids_pairs.drop_last());
        }
        intersection
    }

    /// Reports the next pair of input segments that meet.
    #[verifier::rlimit(40)]
    pub fn next(&mut self) -> (result: Option<Intersection>)
        requires
            old(self)@.wf(),
        ensures
            final(self)@ == old(self)@.next(old(self)@.budget()).0,
            match result {
                Some(intersection) => Some(intersection@) == old(self)@.next(
                    old(self)@.budget(),
                ).1,
                None => old(self)@.next(old(self)@.budget()).1 is None,
            },
            final(self)@.wf(),
            final(self)@.registry.extends(old(self)@.registry),
            result is Some ==> {
                &&& result->0.first_segment_id < final(self)@.registry.min_collinear_segments_ids.len()
                &&& result->0.second_segment_id < final(self)@.registry.min_collinear_segments_ids.len()
                &&& result->0.first_segment_id != result->0.second_segment_id
                &&& is_point_or_part(result->0@)
            },
            old(self)@.is_sound() ==> final(self)@.is_sound() && (result is Some ==> is_held_by_both(
                final(self)@.registry,
                result->0@,
            )),
    {
        let ghost mut steps: nat = self@.budget();
        loop
            invariant
                self@.wf(),
                self@.budget() <= steps,
                self@.next(steps) == old(self)@.next(old(self)@.budget()),
                self@.registry.extends(old(self)@.registry),
                old(self)@.is_sound() ==> self@.is_sound(),
            decreases self@.budget(),
        {
            let ghost before = self@;
            if self.segments_ids_pairs.len() > 0 {
                proof {
                    before.lemma_next_with_pairs(steps);
                }
                let intersection = self.report();
                return Some(intersection);
            }
            let moved = self.populate_segments_ids_pairs();
            proof {
                before.lemma_next_without_pairs(steps);
            }
            if !moved {
                return None;
            }
            proof {
                steps = (steps - 1) as nat;
            }
        }
    }
}

} // verus!
