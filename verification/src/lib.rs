//! The verified core of a deterministic procedural-generation SDK for metroidvania levels: object
//! identity, the binary serialization format, the scope graph, the mission graph and its
//! accessibility spheres, the un-softlockable analysis, metadata, mount-pointed paths, tags, the
//! rule grammar, ordering of spine slots, schedule rules and the state-graph softlock check.

pub mod text;
pub mod object;
pub mod serialize;
pub mod mission;
pub mod node;
pub mod trivalent;
pub mod query;
pub mod meta;
pub mod search;
pub mod schedule;
pub mod spine;
pub mod placement;
pub mod reports;
pub mod sequence;
pub mod tag;
pub mod path;
pub mod parallel;
pub mod state;
pub mod satisfy;
pub mod softlock;
pub mod handle;
pub mod spine_budget;
pub mod spine_check;
pub mod scope_graph;
pub mod mission_graph;
pub mod solver;
