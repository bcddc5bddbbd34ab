//! Core value types, schema lookups, binding maps, and the store snapshot.

use mentat::errors::DbError;
use mentat::internal_types::TempIdMap;
use mentat::tx::AVStore;
use mentat::types::{Attribute, Schema, TempId, TypedValue, ValueType};
use mentat::version;

#[test]
fn it_works() {
}

#[test]
fn version_names_the_crate_release() {
    assert_eq!(version(), "0.7.0");
}

#[test]
fn value_types_of_values() {
    assert_eq!(TypedValue::Ref(1).value_type(), ValueType::Ref);
    assert_eq!(TypedValue::Boolean(true).value_type(), ValueType::Boolean);
    assert_eq!(TypedValue::Long(-7).value_type(), ValueType::Long);
    assert_eq!(TypedValue::String(String::from("s")).value_type(), ValueType::String);
    assert_eq!(TypedValue::Keyword(String::from("k")).value_type(), ValueType::Keyword);
}

#[test]
fn typed_value_equality_is_by_content() {
    assert_eq!(TypedValue::String(String::from("a")), TypedValue::String(String::from("a")));
    assert_ne!(TypedValue::String(String::from("a")), TypedValue::Keyword(String::from("a")));
    assert_ne!(TypedValue::Long(1), TypedValue::Ref(1));
    assert_eq!(TypedValue::Ref(3).clone(), TypedValue::Ref(3));
}

#[test]
fn default_attribute_is_a_plain_ref() {
    let attribute = Attribute::default();
    assert_eq!(attribute.value_type, ValueType::Ref);
    assert!(!attribute.multival);
    assert!(!attribute.unique_value);
    assert!(!attribute.unique_identity);
    assert!(!attribute.index);
    assert!(!attribute.fulltext);
    assert!(!attribute.component);
}

#[test]
fn schema_lookup_finds_defined_attributes() {
    let mut schema = Schema::new();
    let mut attribute = Attribute::default();
    attribute.unique_identity = true;
    schema.define_attribute(65, attribute);
    assert_eq!(schema.attribute_for_entid(65), Some(attribute));
    assert_eq!(schema.attribute_for_entid(66), None);
}

#[test]
fn tempid_map_binds_each_placeholder_once() {
    let mut map = TempIdMap::new();
    assert!(map.is_empty());
    map.insert(TempId(String::from("a")), 1);
    map.insert(TempId(String::from("b")), 2);
    assert!(!map.is_empty());
    assert!(map.contains(&TempId(String::from("a"))));
    assert_eq!(map.get(&TempId(String::from("a"))), Some(1));
    assert_eq!(map.get(&TempId(String::from("b"))), Some(2));
    assert_eq!(map.get(&TempId(String::from("c"))), None);
}

#[test]
fn av_store_resolves_at_most_one_entity() {
    let mut store = AVStore::new();
    store.add_assertion(10, TypedValue::String(String::from("x")), 100);
    store.add_assertion(10, TypedValue::String(String::from("y")), 101);
    // A repeated row for the same entity is not a conflict.
    store.add_assertion(10, TypedValue::String(String::from("x")), 100);

    assert_eq!(store.resolve_av(10, &TypedValue::String(String::from("x"))), Ok(Some(100)));
    assert_eq!(store.resolve_av(10, &TypedValue::String(String::from("y"))), Ok(Some(101)));
    assert_eq!(store.resolve_av(10, &TypedValue::String(String::from("z"))), Ok(None));
    assert_eq!(store.resolve_av(11, &TypedValue::String(String::from("x"))), Ok(None));

    store.add_assertion(10, TypedValue::String(String::from("x")), 102);
    assert_eq!(
        store.resolve_av(10, &TypedValue::String(String::from("x"))),
        Err(DbError::AVResolutionConflict(10, 100, 102))
    );
}
