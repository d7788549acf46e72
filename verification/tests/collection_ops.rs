use std::collections::HashSet;

use ledb::collection::Collection;
use ledb::document::{Field, Modify, RawDocument};
use ledb::filter::Filter;
use ledb::key::KeyData;
use ledb::types::{
    CollectionDef, CollectionError, IndexDef, IndexKind, KeyType, Order, OrderKind, Storage,
};

fn people() -> Collection {
    let defs = vec![IndexDef::new("people", "age", IndexKind::NonUnique, KeyType::Int)];
    Collection::new(CollectionDef::new("people"), defs).unwrap()
}

fn person(name: &str, age: i64) -> RawDocument {
    RawDocument::new(vec![
        Field::new("name", KeyData::String(name.to_string())),
        Field::new("age", KeyData::Int(age)),
    ])
}

fn age_is(age: i64) -> Filter {
    Filter::field_eq("age", KeyData::Int(age))
}

fn set_of(ids: &[u64]) -> HashSet<u64> {
    ids.iter().copied().collect()
}

fn index_ids(coll: &Collection, path: &str) -> Vec<u64> {
    coll.get_index(path).unwrap().unwrap().query_iter(OrderKind::Asc)
}

#[test]
fn fresh_collection_is_empty() {
    let coll = people();
    assert_eq!(coll.name(), "people");
    assert!(!coll.is_deleted());
    assert_eq!(coll.last_id(), Ok(0));
    assert_eq!(coll.new_id(), Ok(1));
    assert_eq!(coll.has(1), Ok(false));
    assert_eq!(coll.get(1), Ok(None));
    assert_eq!(coll.find_ids(None), Ok(HashSet::new()));
    assert_eq!(coll.has_index("age"), Ok(true));
    assert_eq!(coll.has_index("name"), Ok(false));
}

#[test]
fn insert_returns_growing_identifiers() {
    let mut coll = people();
    let a = coll.insert(person("a", 1)).unwrap();
    assert!(coll.last_id().unwrap() >= a);
    let b = coll.insert(person("b", 2)).unwrap();
    assert!(b > a);
    assert_eq!(coll.last_id(), Ok(b));
    assert_eq!(coll.new_id(), Ok(b + 1));
}

#[test]
fn insert_follows_the_last_identifier_across_gaps() {
    let mut coll = people();
    coll.put(person("x", 1).with_id(10)).unwrap();
    assert_eq!(coll.insert(person("y", 2)), Ok(11));
    assert_eq!(coll.delete(5), Ok(false));
    coll.delete(10).unwrap();
    assert_eq!(coll.insert(person("z", 3)), Ok(12));
    assert_eq!(coll.find_ids(None), Ok(set_of(&[11, 12])));
}

#[test]
fn insert_ignores_an_identifier_that_the_document_carries() {
    let mut coll = people();
    assert_eq!(coll.insert(person("a", 1).with_id(50)), Ok(1));
    assert_eq!(coll.has(50), Ok(false));
    assert_eq!(coll.get(1), Ok(Some(person("a", 1).with_id(1))));
}

#[test]
fn put_then_get_gives_the_document_back() {
    let mut coll = people();
    let doc = person("ann", 33).with_id(4);
    assert_eq!(coll.put(doc.clone()), Ok(()));
    assert_eq!(coll.get(4), Ok(Some(doc)));
    assert_eq!(coll.has(4), Ok(true));
}

#[test]
fn put_replaces_the_document_and_its_index_entries() {
    let mut coll = people();
    coll.put(person("ann", 33).with_id(4)).unwrap();
    coll.put(person("ann", 34).with_id(4)).unwrap();
    assert_eq!(coll.get(4), Ok(Some(person("ann", 34).with_id(4))));
    assert_eq!(coll.find_ids(Some(age_is(33))), Ok(HashSet::new()));
    assert_eq!(coll.find_ids(Some(age_is(34))), Ok(set_of(&[4])));
    assert_eq!(index_ids(&coll, "age"), vec![4]);
}

#[test]
fn put_without_identifier_is_refused_and_changes_nothing() {
    let mut coll = people();
    coll.put(person("ann", 33).with_id(4)).unwrap();
    assert_eq!(coll.put(person("bob", 1)), Err(CollectionError::MissingIdentifier));
    assert_eq!(coll.find_ids(None), Ok(set_of(&[4])));
    assert_eq!(index_ids(&coll, "age"), vec![4]);
}

#[test]
fn delete_removes_document_and_index_entries() {
    let mut coll = people();
    coll.put(person("a", 20).with_id(1)).unwrap();
    coll.put(person("b", 20).with_id(2)).unwrap();
    assert_eq!(coll.delete(1), Ok(true));
    assert_eq!(coll.has(1), Ok(false));
    assert_eq!(coll.get(1), Ok(None));
    assert_eq!(index_ids(&coll, "age"), vec![2]);
    assert_eq!(coll.find_ids(Some(age_is(20))), Ok(set_of(&[2])));
    assert_eq!(coll.delete(1), Ok(false));
}

#[test]
fn load_replaces_all_documents() {
    let mut coll = people();
    coll.put(person("old", 99).with_id(77)).unwrap();
    let docs = vec![
        person("a", 30).with_id(3),
        person("b", 20).with_id(1),
        person("c", 25).with_id(2),
    ];
    assert_eq!(coll.load(docs), Ok(3));
    assert_eq!(coll.find_ids(None), Ok(set_of(&[1, 2, 3])));
    assert_eq!(coll.has(77), Ok(false));
    assert_eq!(index_ids(&coll, "age"), vec![1, 2, 3]);
    assert_eq!(coll.find_ids(Some(age_is(99))), Ok(HashSet::new()));
}

#[test]
fn load_takes_the_later_of_two_documents_with_one_identifier() {
    let mut coll = people();
    let docs = vec![
        person("a", 30).with_id(1),
        person("b", 20).with_id(2),
        person("c", 40).with_id(1),
    ];
    assert_eq!(coll.load(docs), Ok(3));
    assert_eq!(coll.find_ids(None), Ok(set_of(&[1, 2])));
    assert_eq!(coll.get(1), Ok(Some(person("c", 40).with_id(1))));
    assert_eq!(index_ids(&coll, "age"), vec![2, 1]);
    assert_eq!(coll.find_ids(Some(age_is(30))), Ok(HashSet::new()));
}

#[test]
fn load_without_identifier_is_refused_and_leaves_nothing() {
    let mut coll = people();
    coll.put(person("old", 99).with_id(77)).unwrap();
    let docs = vec![person("a", 30).with_id(3), person("b", 20)];
    assert_eq!(coll.load(docs), Err(CollectionError::MissingIdentifier));
    assert_eq!(coll.find_ids(None), Ok(HashSet::new()));
    assert!(index_ids(&coll, "age").is_empty());
}

#[test]
fn load_of_nothing_empties_the_collection() {
    let mut coll = people();
    coll.put(person("old", 99).with_id(77)).unwrap();
    assert_eq!(coll.load(Vec::new()), Ok(0));
    assert_eq!(coll.last_id(), Ok(0));
}

#[test]
fn purge_removes_documents_and_keeps_indexes() {
    let mut coll = people();
    coll.insert(person("a", 1)).unwrap();
    coll.insert(person("b", 2)).unwrap();
    assert_eq!(coll.purge(), Ok(()));
    assert_eq!(coll.find_ids(None), Ok(HashSet::new()));
    assert_eq!(coll.has_index("age"), Ok(true));
    assert!(index_ids(&coll, "age").is_empty());
    assert!(!coll.is_deleted());
    assert_eq!(coll.insert(person("c", 3)), Ok(1));
}

#[test]
fn to_delete_marks_and_empties() {
    let mut coll = people();
    coll.insert(person("a", 1)).unwrap();
    assert_eq!(coll.to_delete(), Ok(()));
    assert!(coll.is_deleted());
    assert_eq!(coll.find_ids(None), Ok(HashSet::new()));
    assert!(index_ids(&coll, "age").is_empty());
}

#[test]
fn only_to_delete_sets_the_mark() {
    let mut storage = Storage::new();
    let mut coll = people();
    coll.insert(person("a", 1)).unwrap();
    coll.put(person("b", 2).with_id(9)).unwrap();
    coll.update(None, Modify::set("age", KeyData::Int(5))).unwrap();
    coll.delete(9).unwrap();
    coll.remove(None).unwrap();
    coll.load(vec![person("c", 3).with_id(1)]).unwrap();
    coll.purge().unwrap();
    coll.ensure_index(&mut storage, "name", IndexKind::Unique, KeyType::String).unwrap();
    coll.drop_index("name").unwrap();
    assert!(!coll.is_deleted());
}

#[test]
fn update_changes_the_matching_documents() {
    let mut coll = people();
    coll.load(vec![
        person("a", 20).with_id(1),
        person("b", 30).with_id(2),
        person("c", 20).with_id(3),
    ])
    .unwrap();
    assert_eq!(coll.update(Some(age_is(20)), Modify::set("age", KeyData::Int(21))), Ok(2));
    assert_eq!(coll.get(1), Ok(Some(person("a", 21).with_id(1))));
    assert_eq!(coll.get(2), Ok(Some(person("b", 30).with_id(2))));
    assert_eq!(coll.get(3), Ok(Some(person("c", 21).with_id(3))));
    assert_eq!(index_ids(&coll, "age"), vec![1, 3, 2]);
}

#[test]
fn update_without_filter_changes_every_document() {
    let mut coll = people();
    coll.load(vec![person("a", 20).with_id(1), person("b", 30).with_id(2)]).unwrap();
    assert_eq!(coll.update(None, Modify::set("age", KeyData::Int(1))), Ok(2));
    assert_eq!(coll.find_ids(Some(age_is(1))), Ok(set_of(&[1, 2])));
}

#[test]
fn update_by_negated_filter_changes_the_others() {
    let mut coll = people();
    coll.load(vec![
        person("a", 20).with_id(1),
        person("b", 30).with_id(2),
        person("c", 40).with_id(3),
    ])
    .unwrap();
    let filter = Some(Filter::not(age_is(20)));
    assert_eq!(coll.update(filter, Modify::set("name", KeyData::String("z".to_string()))), Ok(2));
    assert_eq!(coll.get(1), Ok(Some(person("a", 20).with_id(1))));
    assert_eq!(
        coll.get(2),
        Ok(Some(
            RawDocument::new(vec![
                Field::new("age", KeyData::Int(30)),
                Field::new("name", KeyData::String("z".to_string())),
            ])
            .with_id(2)
        ))
    );
}

#[test]
fn update_by_unindexed_field_is_refused() {
    let mut coll = people();
    coll.insert(person("a", 20)).unwrap();
    let filter = Some(Filter::field_eq("name", KeyData::String("a".to_string())));
    assert_eq!(
        coll.update(filter, Modify::set("age", KeyData::Int(1))),
        Err(CollectionError::MissingIndex("name".to_string()))
    );
    assert_eq!(coll.get(1), Ok(Some(person("a", 20).with_id(1))));
}

#[test]
fn remove_deletes_the_matching_documents() {
    let mut coll = people();
    coll.load(vec![
        person("a", 20).with_id(1),
        person("b", 30).with_id(2),
        person("c", 20).with_id(3),
    ])
    .unwrap();
    assert_eq!(coll.remove(Some(age_is(20))), Ok(2));
    assert_eq!(coll.find_ids(None), Ok(set_of(&[2])));
    assert_eq!(index_ids(&coll, "age"), vec![2]);
    assert_eq!(coll.remove(Some(age_is(20))), Ok(0));
    assert_eq!(coll.remove(None), Ok(1));
    assert_eq!(coll.last_id(), Ok(0));
}

#[test]
fn remove_by_unindexed_field_is_refused() {
    let mut coll = people();
    coll.insert(person("a", 20)).unwrap();
    let filter = Some(Filter::field_eq("city", KeyData::Int(1)));
    assert_eq!(coll.remove(filter), Err(CollectionError::MissingIndex("city".to_string())));
    assert_eq!(coll.find_ids(None), Ok(set_of(&[1])));
}

#[test]
fn dump_then_load_copies_a_collection() {
    let mut coll = people();
    coll.insert(person("a", 3)).unwrap();
    coll.insert(person("b", 1)).unwrap();
    coll.put(person("c", 2).with_id(9)).unwrap();
    let mut found = coll.dump().unwrap();
    let mut docs = Vec::new();
    while let Some(doc) = found.next(&coll) {
        docs.push(doc.unwrap());
    }
    assert_eq!(
        docs,
        vec![
            person("a", 3).with_id(1),
            person("b", 1).with_id(2),
            person("c", 2).with_id(9),
        ]
    );
    let mut copy = people();
    assert_eq!(copy.load(docs), Ok(3));
    assert_eq!(copy.find_ids(None), coll.find_ids(None));
    assert_eq!(index_ids(&copy, "age"), vec![2, 9, 1]);
}

#[test]
fn order_default_is_used_by_dump() {
    let mut coll = people();
    coll.put(person("c", 2).with_id(9)).unwrap();
    coll.put(person("a", 2).with_id(3)).unwrap();
    let found = coll.find_all(None, Order::default()).unwrap();
    assert_eq!(found, vec![person("a", 2).with_id(3), person("c", 2).with_id(9)]);
}

#[test]
fn fresh_collection_has_nothing_to_write() {
    let mut coll = people();
    let changes = coll.take_changes();
    assert!(!changes.cleared);
    assert!(changes.touched.is_empty());
}

#[test]
fn changes_name_the_documents_written_and_removed() {
    let mut coll = people();
    coll.insert(person("a", 1)).unwrap();
    coll.put(person("b", 2).with_id(7)).unwrap();
    coll.put(person("c", 3).with_id(9)).unwrap();
    coll.delete(9).unwrap();
    coll.delete(100).unwrap();
    let changes = coll.take_changes();
    assert!(!changes.cleared);
    assert_eq!(changes.touched, set_of(&[1, 7, 9]));
    assert_eq!(coll.has(9), Ok(false));
    let changes = coll.take_changes();
    assert!(!changes.cleared);
    assert!(changes.touched.is_empty());
    assert_eq!(coll.find_ids(None), Ok(set_of(&[1, 7])));
}

#[test]
fn changes_of_update_and_remove_name_the_chosen_documents() {
    let mut coll = people();
    coll.load(vec![
        person("a", 20).with_id(1),
        person("b", 30).with_id(2),
        person("c", 20).with_id(3),
    ])
    .unwrap();
    coll.take_changes();
    coll.update(Some(age_is(20)), Modify::set("age", KeyData::Int(21))).unwrap();
    assert_eq!(coll.take_changes().touched, set_of(&[1, 3]));
    coll.remove(Some(age_is(30))).unwrap();
    let changes = coll.take_changes();
    assert!(!changes.cleared);
    assert_eq!(changes.touched, set_of(&[2]));
}

#[test]
fn changes_after_purge_and_load_start_from_nothing() {
    let mut coll = people();
    coll.put(person("a", 1).with_id(5)).unwrap();
    coll.purge().unwrap();
    let changes = coll.take_changes();
    assert!(changes.cleared);
    assert!(changes.touched.is_empty());
    coll.put(person("a", 1).with_id(5)).unwrap();
    coll.load(vec![person("b", 2).with_id(2), person("c", 3).with_id(3)]).unwrap();
    let changes = coll.take_changes();
    assert!(changes.cleared);
    assert_eq!(changes.touched, set_of(&[2, 3]));
    coll.to_delete().unwrap();
    let changes = coll.take_changes();
    assert!(changes.cleared);
    assert!(changes.touched.is_empty());
}

#[test]
fn index_changes_write_nothing() {
    let mut storage = Storage::new();
    let mut coll = people();
    coll.insert(person("a", 1)).unwrap();
    coll.take_changes();
    coll.create_index(&mut storage, "name", IndexKind::Unique, KeyType::String).unwrap();
    coll.ensure_index(&mut storage, "age", IndexKind::Unique, KeyType::Int).unwrap();
    coll.drop_index("name").unwrap();
    let changes = coll.take_changes();
    assert!(!changes.cleared);
    assert!(changes.touched.is_empty());
}
