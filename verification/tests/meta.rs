use cv_core::meta::{check_key, MetaError, Metadata};
use cv_core::serialize::{from_bytes, to_bytes};

#[test]
fn the_guard_is_one_function_so_three_layers_cannot_disagree() {
    assert!(check_key("CV_x").is_err());
    assert!(check_key("x").is_ok());
    assert!(check_key("").is_err());
}

// ---- further cases ----

#[test]
fn the_guard_looks_only_at_the_prefix() {
    assert!(check_key("my_CV_note").is_ok());
    assert!(check_key("cv_lowercase").is_ok());
    assert!(matches!(check_key("CV_rationale"), Err(MetaError::Reserved { .. })));
}

// ---- the map ----

/// The values a test writes: a small stand-in for a metadata value.
#[derive(Clone, Debug, PartialEq)]
enum Value {
    Bool(bool),
    Int(i32),
    Text(String),
}

impl Value {
    fn as_int(&self) -> Option<i32> {
        match self {
            Value::Int(v) => Some(*v),
            _ => None,
        }
    }

    fn as_text(&self) -> Option<&str> {
        match self {
            Value::Text(v) => Some(v),
            _ => None,
        }
    }
}

#[test]
fn the_core_namespace_is_refused_however_the_key_was_built() {
    let mut m: Metadata<Value> = Metadata::new();
    let computed = format!("{}{}", "CV_", "rationale");
    assert!(matches!(m.set(&computed, Value::Bool(true)), Err(MetaError::Reserved { .. })));
    assert!(m.is_empty(), "and nothing was written");
}

#[test]
fn a_refused_write_leaves_an_existing_value_alone() {
    let mut m: Metadata<Value> = Metadata::new();
    m.set("rationale", Value::Text("core".into())).unwrap();
    assert!(m.set("CV_rationale", Value::Text("mine".into())).is_err());
    assert_eq!(m.get("rationale").unwrap().as_text(), Some("core"));
    assert_eq!(m.len(), 1);
}

#[test]
fn an_empty_key_is_refused_because_it_can_never_be_read_back() {
    let mut m: Metadata<Value> = Metadata::new();
    assert_eq!(m.set("", Value::Bool(true)), Err(MetaError::Empty));
}

#[test]
fn a_key_that_merely_contains_the_prefix_is_fine() {
    let mut m: Metadata<Value> = Metadata::new();
    assert!(m.set("my_CV_note", Value::Bool(true)).is_ok());
    assert!(m.set("cv_lowercase", Value::Bool(true)).is_ok());
}

#[test]
fn memory_order_is_insertion_and_serialize_order_is_sorted() {
    let mut m: Metadata<Value> = Metadata::new();
    m.set("zebra", Value::Int(1)).unwrap();
    m.set("apple", Value::Int(2)).unwrap();
    m.set("mango", Value::Int(3)).unwrap();

    assert_eq!(m.keys(), vec!["zebra", "apple", "mango"]);
    assert_eq!(
        m.canonical().iter().map(|(k, _)| *k).collect::<Vec<_>>(),
        vec!["apple", "mango", "zebra"]
    );
}

#[test]
fn two_projects_that_typed_the_same_keys_in_a_different_order_serialize_the_same() {
    let mut a: Metadata<i32> = Metadata::new();
    a.set("x", 1).unwrap();
    a.set("y", 2).unwrap();

    let mut b: Metadata<i32> = Metadata::new();
    b.set("y", 2).unwrap();
    b.set("x", 1).unwrap();

    assert_ne!(a.keys(), b.keys());
    assert_eq!(to_bytes(&a), to_bytes(&b), "but the recipe is the same");
}

#[test]
fn rewriting_a_key_keeps_its_place_rather_than_moving_it_to_the_end() {
    let mut m: Metadata<Value> = Metadata::new();
    m.set("a", Value::Int(1)).unwrap();
    m.set("b", Value::Int(2)).unwrap();
    m.set("a", Value::Int(9)).unwrap();
    assert_eq!(m.keys(), vec!["a", "b"]);
    assert_eq!(m.get("a").unwrap().as_int(), Some(9));
    assert_eq!(m.len(), 2);
}

#[test]
fn a_whole_metadata_map_round_trips() {
    let mut m: Metadata<String> = Metadata::new();
    m.set("b", "two".to_string()).unwrap();
    m.set("a", "one".to_string()).unwrap();
    let back: Metadata<String> = from_bytes(&to_bytes(&m)).unwrap();
    assert_eq!(back.len(), 2);
    assert_eq!(back.get("a").map(|s| s.as_str()), Some("one"));
    assert_eq!(back.keys(), vec!["a", "b"], "it comes back in its canonical order");
}

#[test]
fn removing_reports_whether_there_was_anything_to_remove() {
    let mut m: Metadata<Value> = Metadata::new();
    m.set("a", Value::Bool(true)).unwrap();
    assert!(m.remove("a"));
    assert!(!m.remove("a"));
    assert!(!m.has("a"));
}

#[test]
fn the_wire_form_is_a_count_then_sorted_keys_and_values() {
    let mut m: Metadata<u8> = Metadata::new();
    m.set("b", 2).unwrap();
    m.set("a", 1).unwrap();
    let bytes = to_bytes(&m);
    assert_eq!(
        &bytes[8..],
        &[2, 0, 0, 0, 1, 0, 0, 0, b'a', 1, 1, 0, 0, 0, b'b', 2][..]
    );
}

#[test]
fn iteration_follows_the_order_keys_were_written() {
    let mut m: Metadata<i32> = Metadata::default();
    m.set("k2", 20).unwrap();
    m.set("k1", 10).unwrap();
    let pairs: Vec<(&str, i32)> = m.iter().into_iter().map(|(k, v)| (k, *v)).collect();
    assert_eq!(pairs, vec![("k2", 20), ("k1", 10)]);
    assert_eq!(m.get("k3"), None);
}
