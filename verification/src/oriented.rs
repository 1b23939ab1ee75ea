//! Orientation of ordered point triples.

use vstd::prelude::*;

verus! {

/// The turn that an ordered triple of points makes.
#[derive(Clone, Copy, Debug, PartialEq, Eq, Structural)]
pub enum Orientation {
    Clockwise,
    Collinear,
    Counterclockwise,
}

impl Orientation {
    /// The name of the orientation in capital letters.
    pub open spec fn name_of(self) -> Seq<char> {
        match self {
            Orientation::Clockwise => "CLOCKWISE"@,
            Orientation::Collinear => "COLLINEAR"@,
            Orientation::Counterclockwise => "COUNTERCLOCKWISE"@,
        }
    }

    /// The name of the orientation in capital letters.
    pub fn name(&self) -> (result: &'static str)
        ensures
            result@ == self.name_of(),
    {
        match self {
            Orientation::Clockwise => "CLOCKWISE",
            Orientation::Collinear => "COLLINEAR",
            Orientation::Counterclockwise => "COUNTERCLOCKWISE",
        }
    }
}

} // verus!
