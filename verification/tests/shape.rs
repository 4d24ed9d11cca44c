use cv_core::reports::ShapeFamily;

#[test]
fn every_family_is_represented_and_classified() {
    let solids = 9;
    let surfaces = 5;
    let composites = 3;
    assert_eq!(solids + surfaces + composites, 17, "the library is seventeen");
    // The three families are distinct.
    assert_ne!(ShapeFamily::Solid, ShapeFamily::Surface);
    assert_ne!(ShapeFamily::Surface, ShapeFamily::Composite);
}
