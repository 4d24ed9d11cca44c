use cv_core::path::{AssetPath, ClassPath, Mount, PathError};
use cv_core::serialize::{from_bytes, to_bytes};

#[test]
fn a_path_names_one_class_forever() {
    let p = ClassPath::new("/Content/Items/Hookshot").unwrap();
    assert_eq!(p.mount(), Mount::Content);
    assert_eq!(p.leaf(), "Hookshot");
    assert_eq!(p.segments(), vec!["Items", "Hookshot"]);
}

#[test]
fn a_bare_name_is_refused_rather_than_resolved_to_something() {
    assert!(matches!(ClassPath::new("Door"), Err(PathError::NotRooted { .. })));
    assert!(matches!(ClassPath::new("/Items/Door"), Err(PathError::UnknownMount { .. })));
}

#[test]
fn a_mount_with_nothing_in_it_is_not_a_class() {
    assert!(matches!(ClassPath::new("/Core"), Err(PathError::NoClass { .. })));
    assert!(matches!(ClassPath::new("/Content/"), Err(PathError::BadSegment { .. })));
}

#[test]
fn content_extends_core_and_core_never_extends_content() {
    assert!(Mount::Content.may_extend(Mount::Core));
    assert!(Mount::Content.may_extend(Mount::Content));
    assert!(Mount::Core.may_extend(Mount::Core));
    assert!(!Mount::Core.may_extend(Mount::Content));
}

#[test]
fn a_folder_is_not_an_ancestor() {
    let p = ClassPath::new("/Content/Items/Hookshot").unwrap();
    assert_eq!(
        p.folder(),
        Some(ClassPath::new("/Content/Items").unwrap()),
        "folder nesting is a display concern"
    );
    assert_eq!(ClassPath::new("/Core/Item").unwrap().folder(), None);
}

#[test]
fn an_asset_is_a_file_and_a_class_is_not() {
    let a = AssetPath::new("/Content/Meshes/hookshot.glb").unwrap();
    assert_eq!(a.file_name(), "hookshot.glb");
    assert_eq!(a.extension().as_deref(), Some("glb"));
    assert!(ClassPath::new("/Content/Meshes/hookshot.glb").is_err(), "a dot is not legal in a class segment");
}

#[test]
fn core_owns_no_files() {
    assert!(matches!(AssetPath::new("/Core/Meshes/thing.glb"), Err(PathError::UnknownMount { .. })));
}

#[test]
fn paths_round_trip_on_the_wire() {
    let c = ClassPath::new("/Content/Items/Hookshot").unwrap();
    assert_eq!(from_bytes::<ClassPath>(&to_bytes(&c)).unwrap(), c);
    let a = AssetPath::new("/Content/Meshes/hookshot.glb").unwrap();
    assert_eq!(from_bytes::<AssetPath>(&to_bytes(&a)).unwrap(), a);
}

#[test]
fn paths_order_and_hash_by_text_so_a_table_can_key_on_them() {
    let mut v = [
        ClassPath::core_literal("/Core/Item"),
        ClassPath::core_literal("/Core/Actor"),
        ClassPath::new("/Content/Items/Hookshot").unwrap(),
    ];
    v.sort();
    assert_eq!(v[0].as_str(), "/Content/Items/Hookshot");
    assert_eq!(v[1].as_str(), "/Core/Actor");
}

// ---- further cases ----

#[test]
fn each_error_carries_the_text_and_the_offending_part() {
    assert_eq!(ClassPath::new("Door"), Err(PathError::NotRooted { text: "Door".into() }));
    assert_eq!(
        ClassPath::new("/Items/Door"),
        Err(PathError::UnknownMount { text: "/Items/Door".into(), mount: "Items".into() })
    );
    assert_eq!(ClassPath::new("/Core"), Err(PathError::NoClass { text: "/Core".into() }));
    assert_eq!(
        ClassPath::new("/Core/Bad-Name"),
        Err(PathError::BadSegment { text: "/Core/Bad-Name".into(), segment: "Bad-Name".into() })
    );
    assert_eq!(
        ClassPath::new("/Core/A//B"),
        Err(PathError::BadSegment { text: "/Core/A//B".into(), segment: "".into() })
    );
}

#[test]
fn an_asset_segment_may_carry_a_dash_and_its_extension_is_lowercased() {
    let a = AssetPath::new("/Content/Sounds/door-slam.OGG").unwrap();
    assert_eq!(a.extension(), Some("ogg".to_string()));
    assert_eq!(AssetPath::new("/Content/Notes/readme").unwrap().extension(), None);
    assert_eq!(a.as_str(), "/Content/Sounds/door-slam.OGG");
}

#[test]
fn a_deep_class_folds_one_level_at_a_time() {
    let p = ClassPath::new("/Content/A/B/C").unwrap();
    let f = p.folder().unwrap();
    assert_eq!(f.as_str(), "/Content/A/B");
    assert_eq!(f.folder().unwrap().as_str(), "/Content/A");
    assert_eq!(f.folder().unwrap().folder(), None);
    assert_eq!(Mount::Core.as_str(), "Core");
}

#[test]
fn a_class_path_is_read_back_as_written_without_reparsing() {
    let mut w = cv_core::serialize::Writer::with_envelope();
    w.str("Door");
    let buf = w.finish();
    let p = from_bytes::<ClassPath>(&buf).unwrap();
    assert_eq!(p.as_str(), "Door");
    assert!(from_bytes::<AssetPath>(&buf).is_err(), "an asset path is still checked");
}
