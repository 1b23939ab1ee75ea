//! Events of the sweep: each segment owns a left event, at its smaller
//! endpoint, and a right one, at its larger endpoint.

use vstd::prelude::*;

verus! {

/// Index of an event in the registry's tables.
pub type Event = usize;

/// Left events are the even ones.
pub open spec fn is_left(event: Event) -> bool {
    event % 2 == 0
}

pub fn is_left_event(event: Event) -> (result: bool)
    ensures
        result == is_left(event),
{
    event % 2 == 0
}

pub fn is_right_event(event: Event) -> (result: bool)
    ensures
        result == !is_left(event),
{
    event % 2 != 0
}

} // verus!
