//! Order in which the sweep visits events.

use crate::bentley_ottmann::event::{is_left, is_left_event, Event};
use crate::comparison::Comparison;
use crate::geometries::{point_lt, points_comparison, Point, PointView};
use vstd::prelude::*;

verus! {

/// Both events and their opposites index the endpoints table.
pub open spec fn are_comparable(
    endpoints: Seq<PointView>,
    opposites: Seq<Event>,
    first_event: Event,
    second_event: Event,
) -> bool {
    &&& endpoints.len() == opposites.len()
    &&& first_event < endpoints.len()
    &&& second_event < endpoints.len()
    &&& opposites[first_event as int] < endpoints.len()
    &&& opposites[second_event as int] < endpoints.len()
}

/// Events are ordered by their points; at the same point a right event
/// comes before a left one, and events of one kind are ordered by the
/// points of their opposites.
pub open spec fn events_comparison(
    endpoints: Seq<PointView>,
    opposites: Seq<Event>,
    first_event: Event,
    second_event: Event,
) -> Comparison {
    let by_start = points_comparison(endpoints[first_event as int], endpoints[second_event as int]);
    if by_start != Comparison::Equal {
        by_start
    } else if is_left(first_event) != is_left(second_event) {
        if is_left(first_event) {
            Comparison::Greater
        } else {
            Comparison::Less
        }
    } else {
        points_comparison(
            endpoints[opposites[first_event as int] as int],
            endpoints[opposites[second_event as int] as int],
        )
    }
}

/// Exchanging the events reverses the outcome.
pub proof fn lemma_events_comparison_reversed(
    endpoints: Seq<PointView>,
    opposites: Seq<Event>,
    first_event: Event,
    second_event: Event,
)
    ensures
        events_comparison(endpoints, opposites, second_event, first_event) == events_comparison(
            endpoints,
            opposites,
            first_event,
            second_event,
        ).reversed(),
{
}

/// "Not after" is transitive, so the order is a total preorder.
pub proof fn lemma_events_comparison_transitive(
    endpoints: Seq<PointView>,
    opposites: Seq<Event>,
    first_event: Event,
    second_event: Event,
    third_event: Event,
)
    requires
        events_comparison(endpoints, opposites, first_event, second_event) != Comparison::Greater,
        events_comparison(endpoints, opposites, second_event, third_event) != Comparison::Greater,
    ensures
        events_comparison(endpoints, opposites, first_event, third_event) != Comparison::Greater,
        events_comparison(endpoints, opposites, first_event, third_event) == Comparison::Equal ==> {
            &&& events_comparison(endpoints, opposites, first_event, second_event)
                == Comparison::Equal
            &&& events_comparison(endpoints, opposites, second_event, third_event)
                == Comparison::Equal
        },
{
}

pub fn compare_events(
    first_event: Event,
    second_event: Event,
    endpoints: &Vec<Point>,
    opposites: &Vec<Event>,
) -> (result: Comparison)
    requires
        are_comparable(endpoints.deep_view(), opposites@, first_event, second_event),
    ensures
        result == events_comparison(endpoints.deep_view(), opposites@, first_event, second_event),
{
    match endpoints[first_event].compare(&endpoints[second_event]) {
        Comparison::Equal => {
            if is_left_event(first_event) != is_left_event(second_event) {
                if is_left_event(first_event) {
                    Comparison::Greater
                } else {
                    Comparison::Less
                }
            } else {
                endpoints[opposites[first_event]].compare(&endpoints[opposites[second_event]])
            }
        },
        value => value,
    }
}

} // verus!
