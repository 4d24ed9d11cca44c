# cv_core

The verified core of a deterministic procedural-generation SDK for metroidvania worlds. Verus
checks every body in `src/`; the public functions state what they return or change in contracts
that Verus proves, and the laws that relate several functions are proof functions of their own.
Four small trusted items stand at the edge to `std` (UTF-8 decoding, building a string from
characters, and the quoted debug form of a string); each says in its doc comment what it claims.

## Layout

- `src/object.rs`, `src/handle.rs`: identities. Object ids are derived by hashing; handles name
  slots of the scope graph.
- `src/serialize.rs`: the binary format. Every write appends exactly the bytes its encoding names,
  and the laws at the end of the file prove that reading gives back what was written.
- `src/scope_graph.rs`, `src/node.rs`: the spatial hierarchy of scopes, its lifecycle, adjacency
  links and the invariant check.
- `src/mission.rs`, `src/mission_graph.rs`: the rule grammar edges are gated by, and the mission
  graph: traversal, hop distances, and the sweep that divides a world into spheres.
- `src/softlock.rs`: the un-softlockable analysis. Every hazard it reports is real, and every
  capability set it enumerates at a one-way edge is accounted for.
- `src/meta.rs`: metadata with the reserved-key guard and its key-sorted canonical form.
- `src/spine_check.rs`: validating a spine template against the registered content and the
  scopes an instance has, every error and warning stated exactly; instantiating it over one
  scope instance (slot allocation, chaining, adjacency, gating, degree floors and caps); and the
  rules across templates.
- `src/satisfy.rs`: which structural constraint excludes a candidate scope and why, and hop
  distances to the locks an unlock opens.
- `src/parallel.rs`, `src/state.rs`, `src/sequence.rs`, `src/spine.rs`, `src/spine_budget.rs`,
  `src/schedule.rs`, `src/placement.rs`, `src/search.rs`, `src/tag.rs`, `src/path.rs`: ordering,
  state graphs, the relaxations report, spine vocabulary and budgets, placement vocabulary, tags
  and paths.
- `app/`: the parts that hold floating-point values (nudges, weighted preferences, `f64` on the
  wire), which the verified library does not; the preferences keep their report in the library's
  `Relaxations`.
- `tests/`: scenarios run against the compiled library.
