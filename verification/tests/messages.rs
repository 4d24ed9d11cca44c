use cv_core::meta::MetaError;
use cv_core::node::{NodeError, NodeKind, NodeState};
use cv_core::object::ObjectId;
use cv_core::path::PathError;
use cv_core::placement::{Constraint, ItemClass, Role};
use cv_core::reports::{Severity, SettingsIssue, SolveError};
use cv_core::satisfy::{preferred_kind, Situation, Veto};
use cv_core::search::{Move, Target};
use cv_core::serialize::SerError;
use cv_core::softlock::AnalysisLimit;

#[test]
fn graph_errors_name_the_kinds_and_states_involved() {
    assert_eq!(NodeError::StaleHandle.to_string(), "stale node handle");
    assert_eq!(
        NodeError::Immutable { kind: NodeKind::Area, state: NodeState::Realized }.to_string(),
        "Area is Realized and cannot be modified"
    );
    assert_eq!(
        NodeError::AheadOfParent { parent: NodeState::Projected, requested: NodeState::Reserved }.to_string(),
        "cannot advance to Reserved while the parent is only Projected — a child may lag behind its parent but never lead it"
    );
    assert_eq!(
        NodeError::KindMismatch { a: NodeKind::Space, b: NodeKind::Area }.to_string(),
        "adjacency links peers, but these are a Space and a Area"
    );
    assert_eq!(NodeError::RootNode.to_string(), "the World root has no parent");
}

#[test]
fn read_failures_say_what_was_found() {
    assert_eq!(
        SerError::UnexpectedEof { needed: 4, remaining: 1 }.to_string(),
        "unexpected end of stream: needed 4 bytes, 1 remain"
    );
    assert_eq!(
        SerError::BadMagic { found: [1, 2, 3, 4] }.to_string(),
        "bad magic [1, 2, 3, 4]; expected [67, 86, 68, 83] — not a CycleVania stream"
    );
    assert_eq!(
        SerError::UnsupportedVersion { found: 99, supported: 1 }.to_string(),
        "format version 99 is not supported (this build reads 1)"
    );
    assert_eq!(SerError::InvalidValue("unknown tag").to_string(), "invalid value: unknown tag");
    assert_eq!(SerError::TrailingBytes(3).to_string(), "3 trailing bytes after the value");
}

#[test]
fn refusals_quote_what_was_refused() {
    assert_eq!(
        MetaError::Reserved { key: "CV_x".into() }.to_string(),
        "\"CV_x\" is in the core's reserved `CV_` namespace"
    );
    assert_eq!(MetaError::Empty.to_string(), "a metadata key may not be empty");
    assert_eq!(
        PathError::UnknownMount { text: "/Items/Door".into(), mount: "Items".into() }.to_string(),
        "\"/Items/Door\" is mounted at \"Items\"; the mounts are /Core and /Content"
    );
    assert_eq!(
        PathError::NotRooted { text: "Door".into() }.to_string(),
        "\"Door\" is not rooted — a class path starts with `/`"
    );
}

#[test]
fn reports_read_plainly() {
    assert_eq!(
        SettingsIssue { setting: "seed", detail: "unset".into(), severity: Severity::Warning }.to_string(),
        "warning: `seed` — unset"
    );
    assert_eq!(
        SolveError::NotEnoughLocations { items: 5, locations: 3 }.to_string(),
        "5 progression items but only 3 locations — either schedule more slots or gate less"
    );
    assert_eq!(
        SolveError::UnmetDemand { content: ObjectId::from_raw(255) }.to_string(),
        "#00000000000000ff is required to exist but could not be placed"
    );
    assert_eq!(
        AnalysisLimit::TooManyCapabilities { found: 20, limit: 16 }.to_string(),
        "20 capabilities exceeds the analysis bound of 16; raise SoftlockAnalyzer::max_capabilities or reduce progression items"
    );
    assert_eq!(ItemClass::Bonus.to_string(), "BONUS");
    assert_eq!(Role::Landmark.to_string(), "LANDMARK");
    assert_eq!(Move::TightenProxy.to_string(), "tighten the proxy");
    assert_eq!(Target::Closed.to_string(), "closed");
    assert_eq!(Veto { by: "SpherePin".into(), because: "too early".into() }.to_string(), "SpherePin: too early");
}

#[test]
fn the_preferred_scope_kind_is_the_first_within_scope_constraint() {
    let cs = [
        Constraint::NotWithinScope { scope: NodeKind::World },
        Constraint::WithinScope { scope: NodeKind::Area },
        Constraint::WithinScope { scope: NodeKind::Space },
    ];
    assert_eq!(preferred_kind(&cs), Some(NodeKind::Area));
    assert_eq!(preferred_kind(&[]), None);
    let s = Situation::default();
    assert!(s.hops_to_lock.is_none() && s.occupants.is_empty());
}
