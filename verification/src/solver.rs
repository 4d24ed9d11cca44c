//! What the progression solver hands back: what went where, the progression sphere by sphere, and
//! why each item landed where it did.

use crate::mission::LocationId;
use crate::mission_graph::{Accessibility, MissionGraph};
use crate::object::ObjectId;
use vstd::prelude::*;

verus! {

/// Why an item ended up where it did.
#[derive(Clone, Debug, PartialEq)]
pub struct PlacementTrace {
    /// The item.
    pub item: ObjectId,
    /// Where it went.
    pub location: LocationId,
    /// How many locations were legal at the time.
    pub candidates: usize,
    /// Hops from the placement to the nearest lock it opens; `None` if it gates nothing.
    pub distance_to_lock: Option<u32>,
}

/// A solved world.
#[derive(Clone, Debug, PartialEq)]
pub struct Solution<B> {
    /// What went where, in location order.
    pub placements: Vec<(LocationId, ObjectId)>,
    /// The progression, sphere by sphere.
    pub accessibility: Accessibility<B>,
    /// Why each item landed where it did.
    pub traces: Vec<PlacementTrace>,
    /// How many orderings were tried before one worked; `1` is the normal case.
    pub attempts: u32,
}

impl<B> Solution<B> {
    /// How many rounds of progression the world has.
    pub fn depth(&self) -> (d: u32)
        ensures
            d == self.accessibility.spheres@.len() as u32,
    {
        self.accessibility.depth()
    }

    /// Is every location accessible? `false` is not necessarily wrong (a world may hold optional
    /// pockets) but it is worth knowing.
    pub fn fully_accessible(&self, mission: &MissionGraph<B>) -> (b: bool)
        ensures
            b == (mission@.locations.len() == self.accessibility.locations@.len()),
    {
        mission.location_count() == self.accessibility.locations.len()
    }
}

} // verus!
