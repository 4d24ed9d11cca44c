//! Small report types shared by the analyses: settings issues, solver errors, shape and attempt
//! families.

use crate::mission::{id_text, LocationId};
use crate::object::ObjectId;
use crate::text::{decimal, decimal_text};
use vstd::prelude::*;

verus! {

/// A lock type the project declares, and what answers it.
#[derive(Clone, Debug, PartialEq)]
pub struct LockType {
    /// The lock type's name.
    pub name: String,
    /// Content paths expected to answer it.
    pub answered_by: Vec<String>,
}

/// How serious a settings issue is.
#[derive(Clone, Copy, Debug, PartialEq, Eq, Structural)]
pub enum Severity {
    /// Still generates.
    Warning,
    /// Does not generate.
    Error,
}

/// Something wrong with a project's settings, found before generation.
#[derive(Clone, Debug, PartialEq, Eq)]
pub struct SettingsIssue {
    /// Which setting.
    pub setting: &'static str,
    /// What is wrong.
    pub detail: String,
    /// A warning still generates; an error does not.
    pub severity: Severity,
}

impl SettingsIssue {
    /// How the issue reads: its level, the setting, and what is wrong.
    pub fn to_string(&self) -> (s: String)
        ensures
            s@ == (match self.severity {
                Severity::Warning => "warning"@,
                Severity::Error => "error"@,
            }) + ": `"@ + self.setting@ + "` — "@ + self.detail@,
    {
        let mut s = String::from_str(
            match self.severity {
                Severity::Warning => "warning",
                Severity::Error => "error",
            },
        );
        s.append(": `");
        s.append(self.setting);
        s.append("` — ");
        s.append(self.detail.as_str());
        s
    }
}

/// Which family a shape belongs to.
#[derive(Clone, Copy, Debug, PartialEq, Eq, PartialOrd, Ord, Hash, Structural)]
pub enum ShapeFamily {
    /// Encloses a volume.
    Solid,
    /// Zero thickness.
    Surface,
    /// Built from repeated parts.
    Composite,
}

/// Which family of attempt an affordance answers for, classified by what relocates.
#[derive(Clone, Copy, Debug, PartialEq, Eq, PartialOrd, Ord, Hash, Structural)]
pub enum AttemptKind {
    /// The occupant relocates.
    Movement,
    /// An object relocates.
    Displace,
    /// Nothing relocates.
    RemoteUse,
}

/// Why a world could not be made solvable.
#[derive(Clone, Debug, PartialEq, Eq)]
pub enum SolveError {
    /// More progression items than places to put them.
    NotEnoughLocations { items: usize, locations: usize },
    /// An item had nowhere accessible to go.
    NoAccessibleLocation { item: ObjectId, placed_so_far: usize },
    /// Something required could not be placed.
    UnmetDemand { content: ObjectId },
}

/// The message for a failed solve.
pub open spec fn solve_error_text(e: SolveError) -> Seq<char> {
    match e {
        SolveError::NotEnoughLocations { items, locations } => decimal(items as nat)
            + " progression items but only "@ + decimal(locations as nat)
            + " locations — either schedule more slots or gate less"@,
        SolveError::NoAccessibleLocation { item, placed_so_far } => "no accessible location for "@
            + id_text(item) + " after placing "@ + decimal(placed_so_far as nat)
            + "; the gating admits no solvable arrangement"@,
        SolveError::UnmetDemand { content } => id_text(content)
            + " is required to exist but could not be placed"@,
    }
}

impl SolveError {
    /// The message for this failure.
    pub fn to_string(&self) -> (s: String)
        ensures
            s@ == solve_error_text(*self),
    {
        match self {
            SolveError::NotEnoughLocations { items, locations } => {
                let mut s = decimal_text(*items as u64);
                s.append(" progression items but only ");
                let l = decimal_text(*locations as u64);
                s.append(l.as_str());
                s.append(" locations — either schedule more slots or gate less");
                s
            },
            SolveError::NoAccessibleLocation { item, placed_so_far } => {
                let mut s = String::from_str("no accessible location for ");
                let i = item.to_string();
                s.append(i.as_str());
                s.append(" after placing ");
                let p = decimal_text(*placed_so_far as u64);
                s.append(p.as_str());
                s.append("; the gating admits no solvable arrangement");
                s
            },
            SolveError::UnmetDemand { content } => {
                let mut s = content.to_string();
                s.append(" is required to exist but could not be placed");
                s
            },
        }
    }
}

/// Why an item ended up where it did.
#[derive(Clone, Debug, PartialEq)]
pub struct PlacementTrace {
    /// The item.
    pub item: ObjectId,
    /// Where it went.
    pub location: LocationId,
    /// How many locations were legal at the time.
    pub candidates: usize,
    /// Hops from the placement to the nearest lock it opens.
    pub distance_to_lock: Option<u32>,
}

} // verus!
