//! Vertical order of the segments that the sweep line crosses.

use crate::bentley_ottmann::event::Event;
use crate::bentley_ottmann::events_queue_key::are_comparable;
use crate::comparison::Comparison;
use crate::geometries::{points_comparison, Point, PointView};
use crate::operations::{lemma_endpoints_collinear, orient, orientation_of};
use crate::oriented::Orientation;
use vstd::prelude::*;

verus! {

/// Order of two segments on one line: by start, then by end.
pub open spec fn collinear_segments_comparison(
    first_start: PointView,
    first_end: PointView,
    second_start: PointView,
    second_end: PointView,
) -> Comparison {
    let by_start = points_comparison(first_start, second_start);
    if by_start != Comparison::Equal {
        by_start
    } else {
        points_comparison(first_end, second_end)
    }
}

/// Where the first segment lies with respect to the second: `Less` is
/// below. When the second segment lies on one side of the first one's line,
/// that side decides; else the side of the first one with respect to the
/// second one's line does, an endpoint on the line leaving the decision to
/// the other endpoint. Segments on one line are ordered by their endpoints.
pub open spec fn segments_position_comparison(
    first_start: PointView,
    first_end: PointView,
    second_start: PointView,
    second_end: PointView,
) -> Comparison {
    let other_start_orientation = orientation_of(first_start, first_end, second_start);
    let other_end_orientation = orientation_of(first_start, first_end, second_end);
    if other_start_orientation == other_end_orientation {
        match other_start_orientation {
            Orientation::Collinear => collinear_segments_comparison(
                first_start,
                first_end,
                second_start,
                second_end,
            ),
            Orientation::Clockwise => Comparison::Greater,
            Orientation::Counterclockwise => Comparison::Less,
        }
    } else {
        let start_orientation = orientation_of(second_start, second_end, first_start);
        let end_orientation = orientation_of(second_start, second_end, first_end);
        if start_orientation == end_orientation {
            if start_orientation == Orientation::Clockwise {
                Comparison::Less
            } else {
                Comparison::Greater
            }
        } else if other_start_orientation == Orientation::Collinear {
            if other_end_orientation == Orientation::Counterclockwise {
                Comparison::Less
            } else {
                Comparison::Greater
            }
        } else if start_orientation == Orientation::Collinear {
            if end_orientation == Orientation::Clockwise {
                Comparison::Less
            } else {
                Comparison::Greater
            }
        } else if end_orientation == Orientation::Collinear {
            if start_orientation == Orientation::Clockwise {
                Comparison::Less
            } else {
                Comparison::Greater
            }
        } else if other_start_orientation == Orientation::Counterclockwise {
            Comparison::Less
        } else {
            Comparison::Greater
        }
    }
}

/// Position of the first event's segment with respect to the second one's.
pub open spec fn sweep_line_comparison(
    endpoints: Seq<PointView>,
    opposites: Seq<Event>,
    first_event: Event,
    second_event: Event,
) -> Comparison {
    segments_position_comparison(
        endpoints[first_event as int],
        endpoints[opposites[first_event as int] as int],
        endpoints[second_event as int],
        endpoints[opposites[second_event as int] as int],
    )
}

/// Segments compare equal exactly when they lie on one line and have the
/// same start and the same end.
pub proof fn lemma_equal_position(
    first_start: PointView,
    first_end: PointView,
    second_start: PointView,
    second_end: PointView,
)
    ensures
        segments_position_comparison(first_start, first_end, second_start, second_end)
            == Comparison::Equal <==> {
            &&& first_start == second_start
            &&& first_end == second_end
            &&& orientation_of(first_start, first_end, second_start) == Orientation::Collinear
            &&& orientation_of(first_start, first_end, second_end) == Orientation::Collinear
        },
{
}

/// A segment coincides with itself.
pub proof fn lemma_same_position(start: PointView, end: PointView)
    ensures
        segments_position_comparison(start, end, start, end) == Comparison::Equal,
{
    lemma_endpoints_collinear(start, end);
}

pub fn compare_segments_position(
    first_start: &Point,
    first_end: &Point,
    second_start: &Point,
    second_end: &Point,
) -> (result: Comparison)
    ensures
        result == segments_position_comparison(
            first_start@,
            first_end@,
            second_start@,
            second_end@,
        ),
{
    let other_start_orientation = orient(first_start, first_end, second_start);
    let other_end_orientation = orient(first_start, first_end, second_end);
    if other_start_orientation == other_end_orientation {
        match other_start_orientation {
            Orientation::Collinear => match first_start.compare(second_start) {
                Comparison::Equal => first_end.compare(second_end),
                value => value,
            },
            Orientation::Clockwise => Comparison::Greater,
            Orientation::Counterclockwise => Comparison::Less,
        }
    } else {
        let start_orientation = orient(second_start, second_end, first_start);
        let end_orientation = orient(second_start, second_end, first_end);
        if start_orientation == end_orientation {
            if start_orientation == Orientation::Clockwise {
                Comparison::Less
            } else {
                Comparison::Greater
            }
        } else if other_start_orientation == Orientation::Collinear {
            if other_end_orientation == Orientation::Counterclockwise {
                Comparison::Less
            } else {
                Comparison::Greater
            }
        } else if start_orientation == Orientation::Collinear {
            if end_orientation == Orientation::Clockwise {
                Comparison::Less
            } else {
                Comparison::Greater
            }
        } else if end_orientation == Orientation::Collinear {
            if start_orientation == Orientation::Clockwise {
                Comparison::Less
            } else {
                Comparison::Greater
            }
        } else if other_start_orientation == Orientation::Counterclockwise {
            Comparison::Less
        } else {
            Comparison::Greater
        }
    }
}

pub fn compare_sweep_line_keys(
    first_event: Event,
    second_event: Event,
    endpoints: &Vec<Point>,
    opposites: &Vec<Event>,
) -> (result: Comparison)
    requires
        are_comparable(endpoints.deep_view(), opposites@, first_event, second_event),
    ensures
        result == sweep_line_comparison(
            endpoints.deep_view(),
            opposites@,
            first_event,
            second_event,
        ),
{
    compare_segments_position(
        &endpoints[first_event],
        &endpoints[opposites[first_event]],
        &endpoints[second_event],
        &endpoints[opposites[second_event]],
    )
}

} // verus!
