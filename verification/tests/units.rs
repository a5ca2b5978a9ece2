use sqjson::doc::{Doc, FieldValue, value_eq};
use sqjson::util::{PAGE_SIZE, align_to, bytes_to_u32_le, u32_to_bytes_le};

#[test]
fn align_to_rounds_up_to_power_of_two() {
    assert_eq!(align_to(0, 8), 0);
    assert_eq!(align_to(1, 8), 8);
    assert_eq!(align_to(8, 8), 8);
    assert_eq!(align_to(9, 8), 16);
    assert_eq!(align_to(5000, PAGE_SIZE), 2 * PAGE_SIZE);
    assert_eq!(align_to(PAGE_SIZE, PAGE_SIZE), PAGE_SIZE);
}

#[test]
fn u32_little_endian_round_trip() {
    assert_eq!(u32_to_bytes_le(0x0403_0201), [1, 2, 3, 4]);
    assert_eq!(bytes_to_u32_le(&[1, 2, 3, 4]), 0x0403_0201);
    for v in [0u32, 1, 255, 256, 65_535, 0xdead_beef, u32::MAX] {
        assert_eq!(bytes_to_u32_le(&u32_to_bytes_le(v)), v);
    }
    // Only the first four bytes are read.
    assert_eq!(bytes_to_u32_le(&[1, 2, 3, 4, 99, 98]), 0x0403_0201);
}

#[test]
fn doc_set_replaces_in_place_and_appends() {
    let mut d = Doc::new();
    assert_eq!(d.field_count(), 0);
    d.set("a", FieldValue::Int(1));
    d.set("b", FieldValue::Bool(true));
    d.set("a", FieldValue::Int(2));
    assert_eq!(d.field_count(), 2);
    assert_eq!(d.get("a"), Some(&FieldValue::Int(2)));
    assert_eq!(d.get("b"), Some(&FieldValue::Bool(true)));
    assert_eq!(d.get("c"), None);
    let (first_name, first_value) = d.field_at(0);
    assert_eq!(first_name, "a");
    assert_eq!(first_value, &FieldValue::Int(2));
}

#[test]
fn field_values_compare_by_content() {
    assert!(value_eq(&FieldValue::Null, &FieldValue::Null));
    assert!(value_eq(&FieldValue::Int(7), &FieldValue::Int(7)));
    assert!(!value_eq(&FieldValue::Int(7), &FieldValue::Int(8)));
    assert!(!value_eq(&FieldValue::Int(0), &FieldValue::Bool(false)));
    assert!(value_eq(
        &FieldValue::Text("NY".to_string()),
        &FieldValue::Text("NY".to_string()),
    ));
    assert!(!value_eq(
        &FieldValue::Text("NY".to_string()),
        &FieldValue::Text("LA".to_string()),
    ));
}

#[test]
fn documents_clone_deeply() {
    let mut d = Doc::new();
    d.set("name", FieldValue::Text("Alice".to_string()));
    d.set("age", FieldValue::Int(30));
    let c = d.clone();
    assert_eq!(c, d);
}

#[test]
fn error_messages_name_the_failure() {
    assert_eq!(sqjson::DbError::KeyNotFound.message(), "key not found");
    assert_ne!(
        sqjson::DbError::Io.message(),
        sqjson::DbError::PageOutOfBounds.message()
    );
}
