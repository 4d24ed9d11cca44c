//! How much a spatial query asks for, against how much the world can supply.

use vstd::prelude::*;

verus! {

/// How much geometry exists so far.
#[derive(Clone, Copy, Debug, PartialEq, Eq, PartialOrd, Ord, Hash, Structural)]
pub enum Fidelity {
    /// Room envelopes only.
    Envelope,
    /// Boxes and placed instances.
    Hull,
    /// Final triangles.
    Geometry,
}

/// How much a query wants back. Detail is what you ask for; fidelity is what exists.
#[derive(Clone, Copy, Debug, PartialEq, Eq, PartialOrd, Ord, Hash, Structural)]
pub enum Detail {
    /// Which room.
    Scope,
    /// Which box, which face.
    Collider,
    /// Which placed actor.
    Instance,
    /// Which polygon.
    Polygon,
    /// Which triangle.
    Triangle,
}

/// The position of a detail level, coarsest first.
pub open spec fn detail_rank(d: Detail) -> int {
    match d {
        Detail::Scope => 0,
        Detail::Collider => 1,
        Detail::Instance => 2,
        Detail::Polygon => 3,
        Detail::Triangle => 4,
    }
}

/// The finest detail a fidelity supplies.
pub open spec fn finest_at(f: Fidelity) -> Detail {
    match f {
        Fidelity::Envelope => Detail::Scope,
        Fidelity::Hull => Detail::Instance,
        Fidelity::Geometry => Detail::Triangle,
    }
}

impl Detail {
    /// The finest detail this fidelity can actually supply.
    pub fn available_at(fidelity: Fidelity) -> (d: Detail)
        ensures
            d == finest_at(fidelity),
    {
        match fidelity {
            Fidelity::Envelope => Detail::Scope,
            Fidelity::Hull => Detail::Instance,
            Fidelity::Geometry => Detail::Triangle,
        }
    }

    fn rank(self) -> (r: u8)
        ensures
            r == detail_rank(self),
    {
        match self {
            Detail::Scope => 0,
            Detail::Collider => 1,
            Detail::Instance => 2,
            Detail::Polygon => 3,
            Detail::Triangle => 4,
        }
    }

    /// Is this detail obtainable at that fidelity?
    pub fn is_available_at(self, fidelity: Fidelity) -> (b: bool)
        ensures
            b == (detail_rank(self) <= detail_rank(finest_at(fidelity))),
    {
        self.rank() <= Detail::available_at(fidelity).rank()
    }
}

/// More fidelity never makes a detail unavailable.
pub proof fn law_availability_is_monotone(d: Detail, f: Fidelity, g: Fidelity)
    requires
        detail_rank(finest_at(f)) <= detail_rank(finest_at(g)),
        detail_rank(d) <= detail_rank(finest_at(f)),
    ensures
        detail_rank(d) <= detail_rank(finest_at(g)),
{
}

} // verus!
