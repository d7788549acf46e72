use ledb::document::{clone_fields, Field, Modify, RawDocument};
use ledb::key::KeyData;
use ledb::types::CollectionError;

fn person(name: &str, age: i64) -> Vec<Field> {
    vec![
        Field::new("name", KeyData::String(name.to_string())),
        Field::new("age", KeyData::Int(age)),
    ]
}

#[test]
fn new_document_has_no_identifier() {
    let doc = RawDocument::new(person("a", 1));
    assert!(!doc.has_id());
    assert_eq!(doc.get_id(), None);
    assert_eq!(doc.req_id(), Err(CollectionError::MissingIdentifier));
}

#[test]
fn with_id_sets_the_identifier_and_keeps_the_fields() {
    let doc = RawDocument::new(person("a", 1)).with_id(7);
    assert!(doc.has_id());
    assert_eq!(doc.get_id(), Some(7));
    assert_eq!(doc.req_id(), Ok(7));
    assert_eq!(doc.into_inner(), person("a", 1));
}

#[test]
fn clone_fields_copies_every_field() {
    let fields = person("bob", 30);
    assert_eq!(clone_fields(&fields), fields);
    assert_eq!(clone_fields(&Vec::new()), Vec::new());
}

#[test]
fn document_clone_is_equal() {
    let doc = RawDocument::new(person("a", 1)).with_id(3);
    assert_eq!(doc.clone(), doc);
}

#[test]
fn set_replaces_a_field_and_puts_it_last() {
    let m = Modify::set("age", KeyData::Int(21));
    let out = m.apply(person("a", 20));
    assert_eq!(
        out,
        vec![
            Field::new("name", KeyData::String("a".to_string())),
            Field::new("age", KeyData::Int(21)),
        ]
    );
    let out = m.apply(vec![
        Field::new("age", KeyData::Int(1)),
        Field::new("name", KeyData::String("a".to_string())),
        Field::new("age", KeyData::Int(2)),
    ]);
    assert_eq!(
        out,
        vec![
            Field::new("name", KeyData::String("a".to_string())),
            Field::new("age", KeyData::Int(21)),
        ]
    );
}

#[test]
fn set_adds_a_field_that_was_not_there() {
    let m = Modify::set("city", KeyData::String("x".to_string()));
    let out = m.apply(Vec::new());
    assert_eq!(out, vec![Field::new("city", KeyData::String("x".to_string()))]);
}
