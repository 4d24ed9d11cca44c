//! Placement vocabulary: hard constraints, schedule rules, the declared class of a reward, and
//! the role a placement turned out to play.

use crate::mission::id_text;
use crate::node::{kind_name, NodeKind};
use crate::object::ObjectId;
use crate::tag::TagQuery;
use crate::text::{decimal, decimal_text};
use vstd::prelude::*;

verus! {

/// A distance budget a constraint is measured in, named by the id of the budget if it has one.
#[derive(Clone, Copy, Debug, PartialEq, Eq, Structural)]
pub struct BudgetRef(pub Option<ObjectId>);

impl BudgetRef {
    /// The budget's id, if it names one.
    pub fn id(&self) -> (i: Option<ObjectId>)
        ensures
            i == self.0,
    {
        self.0
    }
}

/// A hard placement requirement. Unsatisfiable means the placement does not happen.
#[derive(Clone, Debug, PartialEq)]
pub enum Constraint {
    /// No sibling of this kind in the same scope.
    AloneInScope { scope: NodeKind },
    /// At least this far from a named kind.
    MinDistanceFrom { kind: ObjectId, budget: BudgetRef },
    /// At most this far from a named kind.
    MaxDistanceFrom { kind: ObjectId, budget: BudgetRef },
    /// Must be mounted on a socket matching these tags.
    MountedOn { accepts: TagQuery },
    /// Only inside this kind of scope.
    WithinScope { scope: NodeKind },
    /// Never inside this kind of scope.
    NotWithinScope { scope: NodeKind },
    /// Pin to a range of spheres.
    SpherePin { min: u32, max: u32 },
}

/// How a constraint reads in a report.
pub open spec fn constraint_text(c: Constraint) -> Seq<char> {
    match c {
        Constraint::AloneInScope { scope } => "alone in its "@ + kind_name(scope),
        Constraint::MinDistanceFrom { kind, .. } => "far from "@ + id_text(kind),
        Constraint::MaxDistanceFrom { kind, .. } => "near "@ + id_text(kind),
        Constraint::MountedOn { .. } => "mounted on a matching socket"@,
        Constraint::WithinScope { scope } => "within a "@ + kind_name(scope),
        Constraint::NotWithinScope { scope } => "not within a "@ + kind_name(scope),
        Constraint::SpherePin { min, max } => "in spheres "@ + decimal(min as nat) + "–"@ + decimal(
            max as nat,
        ),
    }
}

impl Constraint {
    /// How the constraint reads in a report.
    pub fn to_string(&self) -> (s: String)
        ensures
            s@ == constraint_text(*self),
    {
        match self {
            Constraint::AloneInScope { scope } => {
                let mut s = String::from_str("alone in its ");
                s.append(scope.as_str());
                s
            },
            Constraint::MinDistanceFrom { kind, .. } => {
                let mut s = String::from_str("far from ");
                let t = kind.to_string();
                s.append(t.as_str());
                s
            },
            Constraint::MaxDistanceFrom { kind, .. } => {
                let mut s = String::from_str("near ");
                let t = kind.to_string();
                s.append(t.as_str());
                s
            },
            Constraint::MountedOn { .. } => String::from_str("mounted on a matching socket"),
            Constraint::WithinScope { scope } => {
                let mut s = String::from_str("within a ");
                s.append(scope.as_str());
                s
            },
            Constraint::NotWithinScope { scope } => {
                let mut s = String::from_str("not within a ");
                s.append(scope.as_str());
                s
            },
            Constraint::SpherePin { min, max } => {
                let mut s = String::from_str("in spheres ");
                let a = decimal_text(*min as u64);
                s.append(a.as_str());
                s.append("–");
                let b = decimal_text(*max as u64);
                s.append(b.as_str());
                s
            },
        }
    }
}

/// Ordering and replacement between pieces of content.
#[derive(Clone, Copy, Debug, PartialEq)]
pub enum ScheduleRule {
    /// Place me after this target, with a gap in spheres.
    PlacedAfter { target: ObjectId, gap: (u32, u32) },
    /// Never place me in the same world as this.
    ExclusiveWith { other: ObjectId },
    /// This replaces a base once available.
    Supersedes { base: ObjectId },
    /// Pin to a sphere range.
    SpherePin { min: u32, max: u32 },
}

/// What kind of reward something is: an input the developer declares.
#[derive(Clone, Copy, Debug, PartialEq, Eq, PartialOrd, Ord, Hash, Structural)]
pub enum ItemClass {
    /// May appear in logic. The conservative default.
    Progression,
    /// Tunes route difficulty. Never gates.
    Useful,
    /// Rewards optional exploration. Never gates.
    Bonus,
    /// Satisfies density. Never gates.
    Filler,
}

impl ItemClass {
    /// May content of this class appear in access logic? Only progression may.
    pub fn may_gate(self) -> (b: bool)
        ensures
            b == (self == ItemClass::Progression),
    {
        self == ItemClass::Progression
    }
}

impl ItemClass {
    /// How the class reads in a report.
    pub fn to_string(&self) -> (s: String)
        ensures
            s@ == match *self {
                ItemClass::Progression => "PROGRESSION"@,
                ItemClass::Useful => "USEFUL"@,
                ItemClass::Bonus => "BONUS"@,
                ItemClass::Filler => "FILLER"@,
            },
    {
        String::from_str(
            match self {
                ItemClass::Progression => "PROGRESSION",
                ItemClass::Useful => "USEFUL",
                ItemClass::Bonus => "BONUS",
                ItemClass::Filler => "FILLER",
            },
        )
    }
}

impl Default for ItemClass {
    fn default() -> (c: ItemClass)
        ensures
            c == ItemClass::Progression,
    {
        ItemClass::Progression
    }
}

/// What a placement turned out to be: an output, assigned after the search.
#[derive(Clone, Copy, Debug, PartialEq, Eq, PartialOrd, Ord, Hash, Structural)]
pub enum Role {
    /// It answered every hook with nothing.
    Decoration,
    /// Something had to get past it.
    Obstacle,
    /// It became a way through.
    Traversal,
    /// It gated progression.
    Gate,
    /// It became a navigational reference.
    Landmark,
}

impl Role {
    /// How the role reads in a report.
    pub fn to_string(&self) -> (s: String)
        ensures
            s@ == match *self {
                Role::Decoration => "DECORATION"@,
                Role::Obstacle => "OBSTACLE"@,
                Role::Traversal => "TRAVERSAL"@,
                Role::Gate => "GATE"@,
                Role::Landmark => "LANDMARK"@,
            },
    {
        String::from_str(
            match self {
                Role::Decoration => "DECORATION",
                Role::Obstacle => "OBSTACLE",
                Role::Traversal => "TRAVERSAL",
                Role::Gate => "GATE",
                Role::Landmark => "LANDMARK",
            },
        )
    }
}

/// What the solver observed about a placement.
#[derive(Clone, Copy, Debug, Default, PartialEq, Structural)]
pub struct RoleEvidence {
    /// A rule somewhere referenced it.
    pub gated_something: bool,
    /// A route passed through it.
    pub carried_a_route: bool,
    /// A route had to go around it.
    pub obstructed_a_route: bool,
    /// It was used as a navigational reference.
    pub navigated_by: bool,
}

/// The role observations imply, most load-bearing first.
pub open spec fn implied_role(e: RoleEvidence) -> Role {
    if e.gated_something {
        Role::Gate
    } else if e.carried_a_route {
        Role::Traversal
    } else if e.navigated_by {
        Role::Landmark
    } else if e.obstructed_a_route {
        Role::Obstacle
    } else {
        Role::Decoration
    }
}

impl RoleEvidence {
    /// The role these observations imply: gate, then traversal, landmark, obstacle; decoration
    /// when nothing happened.
    pub fn role(&self) -> (r: Role)
        ensures
            r == implied_role(*self),
    {
        if self.gated_something {
            Role::Gate
        } else if self.carried_a_route {
            Role::Traversal
        } else if self.navigated_by {
            Role::Landmark
        } else if self.obstructed_a_route {
            Role::Obstacle
        } else {
            Role::Decoration
        }
    }
}

/// Gating outranks every other consequence, and only a placement nothing touched is decoration.
pub proof fn law_role_is_ordered_by_consequence(e: RoleEvidence)
    ensures
        e.gated_something ==> implied_role(e) == Role::Gate,
        implied_role(e) == Role::Decoration <==> !(e.gated_something || e.carried_a_route
            || e.navigated_by || e.obstructed_a_route),
{
}

/// How load-bearing a role is: a gate most, then a route, a landmark, an obstacle; decoration
/// least.
pub open spec fn consequence(r: Role) -> int {
    match r {
        Role::Gate => 4,
        Role::Traversal => 3,
        Role::Landmark => 2,
        Role::Obstacle => 1,
        Role::Decoration => 0,
    }
}

/// Does `more` record everything `less` does, and perhaps more?
pub open spec fn observes_at_least(more: RoleEvidence, less: RoleEvidence) -> bool {
    &&& less.gated_something ==> more.gated_something
    &&& less.carried_a_route ==> more.carried_a_route
    &&& less.obstructed_a_route ==> more.obstructed_a_route
    &&& less.navigated_by ==> more.navigated_by
}

/// **The most load-bearing observation decides the role.** A placement that gated something is
/// a gate; one that did not but carried a route is traversal, whatever else it did; one that did
/// neither but was navigated by is a landmark; it is an obstacle only when obstructing a route is
/// all it did.
pub proof fn law_the_weightiest_observation_decides(e: RoleEvidence)
    ensures
        implied_role(e) == Role::Gate <==> e.gated_something,
        implied_role(e) == Role::Traversal <==> !e.gated_something && e.carried_a_route,
        implied_role(e) == Role::Landmark <==> !e.gated_something && !e.carried_a_route
            && e.navigated_by,
        implied_role(e) == Role::Obstacle <==> !e.gated_something && !e.carried_a_route
            && !e.navigated_by && e.obstructed_a_route,
{
}

/// **More evidence never demotes a placement.** Observing everything another observation did,
/// and more, gives a role at least as load-bearing.
pub proof fn law_more_evidence_never_demotes(more: RoleEvidence, less: RoleEvidence)
    requires
        observes_at_least(more, less),
    ensures
        consequence(implied_role(more)) >= consequence(implied_role(less)),
{
}

} // verus!
