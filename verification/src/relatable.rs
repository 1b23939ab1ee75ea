//! Relations between two geometries.

use vstd::prelude::*;

verus! {

/// How the first geometry lies with respect to the second.
#[derive(Clone, Copy, Debug, PartialEq, Eq, Structural)]
pub enum Relation {
    /// The first is a proper part of the second.
    Component,
    /// The second is a proper part of the first.
    Composite,
    Cover,
    /// They share a single point that is interior to both.
    Cross,
    Disjoint,
    Enclosed,
    Encloses,
    Equal,
    /// They share more than a point and neither contains the other.
    Overlap,
    /// They share a single point that is an endpoint of one of them.
    Touch,
    Within,
}

impl Relation {
    /// The name of the relation in capital letters.
    pub open spec fn name_of(self) -> Seq<char> {
        match self {
            Relation::Component => "COMPONENT"@,
            Relation::Composite => "COMPOSITE"@,
            Relation::Cover => "COVER"@,
            Relation::Cross => "CROSS"@,
            Relation::Disjoint => "DISJOINT"@,
            Relation::Enclosed => "ENCLOSED"@,
            Relation::Encloses => "ENCLOSES"@,
            Relation::Equal => "EQUAL"@,
            Relation::Overlap => "OVERLAP"@,
            Relation::Touch => "TOUCH"@,
            Relation::Within => "WITHIN"@,
        }
    }

    /// The name of the relation in capital letters.
    pub fn name(&self) -> (result: &'static str)
        ensures
            result@ == self.name_of(),
    {
        match self {
            Relation::Component => "COMPONENT",
            Relation::Composite => "COMPOSITE",
            Relation::Cover => "COVER",
            Relation::Cross => "CROSS",
            Relation::Disjoint => "DISJOINT",
            Relation::Enclosed => "ENCLOSED",
            Relation::Encloses => "ENCLOSES",
            Relation::Equal => "EQUAL",
            Relation::Overlap => "OVERLAP",
            Relation::Touch => "TOUCH",
            Relation::Within => "WITHIN",
        }
    }
}

} // verus!
