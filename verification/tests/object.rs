use cv_core::object::{IdAllocator, Object, ObjectHeader, ObjectId};

#[test]
fn allocator_is_sequential_and_deterministic() {
    let mut a = IdAllocator::new();
    let ids: Vec<_> = (0..4).map(|_| a.allocate()).collect();
    assert_eq!(ids.iter().map(|i| i.to_raw()).collect::<Vec<_>>(), vec![1, 2, 3, 4]);
    let mut b = IdAllocator::new();
    assert_eq!((0..4).map(|_| b.allocate()).collect::<Vec<_>>(), ids);
    assert!(ids.iter().all(|i| !i.is_none()));
}

#[test]
fn allocator_resumes_without_reissuing() {
    let mut a = IdAllocator::new();
    a.allocate();
    a.allocate();
    let resumed = IdAllocator::resuming_from(a.peek());
    assert_eq!(resumed.peek(), 3);
    assert_eq!(IdAllocator::resuming_from(a.peek()).clone().allocate().to_raw(), 3);
}

#[test]
fn derived_ids_are_content_addressed() {
    assert_eq!(
        ObjectId::derived("actor", "crawler/door_heavy"),
        ObjectId::derived("actor", "crawler/door_heavy")
    );
    assert_ne!(ObjectId::derived("actor", "door"), ObjectId::derived("item", "door"));
    assert_ne!(ObjectId::derived("actor", "door"), ObjectId::derived("actor", "lever"));
    assert!(!ObjectId::derived("", "").is_none());
}

#[test]
fn child_ids_follow_their_parent() {
    let parent = ObjectId::derived("actor", "door");
    assert_eq!(parent.child("mesh"), parent.child("mesh"));
    assert_ne!(parent.child("mesh"), parent.child("collision"));
    assert_ne!(parent.child("mesh"), ObjectId::derived("actor", "lever").child("mesh"));
}

#[test]
fn ids_display_readably() {
    assert_eq!(ObjectId::from_raw(1234).to_string(), "#00000000000004d2");
    assert_eq!(ObjectId::none().debug_text(), "ObjectId(NONE)");
}

#[test]
fn derived_header_matches_derived_id() {
    let h = ObjectHeader::derived("actor", "door");
    assert_eq!(h.id, ObjectId::derived("actor", "door"));
    assert_eq!(h.name, "door");
}

#[test]
fn a_resumed_allocator_never_starts_at_zero() {
    assert_eq!(IdAllocator::resuming_from(0).peek(), 1);
}

#[test]
fn fnv_of_the_empty_string_is_the_offset_basis() {
    // Combining the offset basis with itself, then the never-zero rule, is what `derived("", "")`
    // is; two calls agree and the result is not the reserved id.
    let a = ObjectId::derived("", "");
    assert_eq!(a, ObjectId::derived("", ""));
    assert_ne!(a.to_raw(), 0);
}

struct Door {
    header: ObjectHeader,
}

impl Object for Door {
    fn header(&self) -> &ObjectHeader {
        &self.header
    }
    fn header_mut(&mut self) -> &mut ObjectHeader {
        &mut self.header
    }
    fn type_label(&self) -> &'static str {
        "Door"
    }
}

#[test]
fn object_trait_describes_itself() {
    let mut door = Door { header: ObjectHeader::new(ObjectId::from_raw(1234), "heavy_gate") };
    assert_eq!(door.id().to_raw(), 1234);
    assert_eq!(door.name(), "heavy_gate");
    assert_eq!(door.describe(), "Door \"heavy_gate\" #00000000000004d2");
    door.header_mut().name = "renamed".into();
    assert_eq!(door.name(), "renamed");
    // Renaming does not change identity.
    assert_eq!(door.id().to_raw(), 1234);
}
