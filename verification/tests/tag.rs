use cv_core::tag::{Tag, TagQuery};

#[test]
fn inherited_matching_picks_up_content_that_did_not_exist_yet() {
    let any_boss = TagQuery::inherited("Enemy.Boss");
    assert!(any_boss.matches(&Tag::new("Enemy.Boss.Dragon")));
    assert!(any_boss.matches(&Tag::new("Enemy.Boss.Lich")));
    assert!(any_boss.matches(&Tag::new("Enemy.Boss")), "and the tag itself");
}

#[test]
fn exact_matching_does_not_quietly_widen() {
    let this_one = TagQuery::exact("Enemy.Boss");
    assert!(this_one.matches(&Tag::new("Enemy.Boss")));
    assert!(
        !this_one.matches(&Tag::new("Enemy.Boss.Dragon")),
        "exact means exact, or the toggle would be decoration"
    );
}

#[test]
fn matching_is_segment_wise_and_not_a_string_prefix() {
    let any_boss = TagQuery::inherited("Enemy.Boss");
    assert!(!any_boss.matches(&Tag::new("Enemy.Bossy")));
    assert!(!any_boss.matches(&Tag::new("Enemy.Bossling.Small")));
    assert!(any_boss.matches(&Tag::new("Enemy.Boss.Dragon")));
}

#[test]
fn a_broader_query_never_matches_a_narrower_tag_backwards() {
    assert!(TagQuery::inherited("Enemy").matches(&Tag::new("Enemy.Boss")));
    assert!(!TagQuery::inherited("Enemy.Boss").matches(&Tag::new("Enemy")));
}

#[test]
fn content_carries_several_tags_and_any_of_them_may_answer() {
    let tags = [Tag::new("Prop.Light"), Tag::new("Enemy.Boss.Dragon")];
    assert!(TagQuery::inherited("Enemy.Boss").matches_any(&tags));
    assert!(!TagQuery::inherited("Surface.Water").matches_any(&tags));
}

#[test]
fn tags_normalise_so_two_spellings_of_the_same_thing_are_one_tag() {
    assert_eq!(Tag::new("a..b"), Tag::new("a.b"));
    assert_eq!(Tag::new(".a.b."), Tag::new("a.b"));
    assert_eq!(Tag::new("a.b").depth(), 2);
}

#[test]
fn parent_walks_out_one_level_and_stops_at_the_root() {
    let t = Tag::new("Enemy.Boss.Dragon");
    assert_eq!(t.parent(), Some(Tag::new("Enemy.Boss")));
    assert_eq!(t.parent().unwrap().parent(), Some(Tag::new("Enemy")));
    assert_eq!(Tag::new("Enemy").parent(), None);
}

// ---- further cases ----

#[test]
fn segments_and_containment_agree() {
    let t = Tag::new("Enemy.Boss.Dragon");
    assert_eq!(t.segments(), vec!["Enemy", "Boss", "Dragon"]);
    assert!(t.is_under(&Tag::new("Enemy")));
    assert!(t.is_under(&t));
    assert!(!Tag::new("Enemy").is_under(&t));
    assert_eq!(Tag::new("..").depth(), 0);
    assert_eq!(Tag::new("..").as_str(), "");
}
