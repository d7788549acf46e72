use ledb::collection::Collection;
use ledb::document::{Document, Field, RawDocument};
use ledb::key::KeyData;
use ledb::types::{
    CollectionDef, CollectionError, IndexDef, IndexKind, KeyField, KeyFields, KeyType, OrderKind,
    Storage,
};

fn aged(id: u64, age: i64) -> RawDocument {
    RawDocument::new(vec![Field::new("age", KeyData::Int(age))]).with_id(id)
}

fn stocked() -> Collection {
    let mut coll = Collection::new(CollectionDef::new("people"), Vec::new()).unwrap();
    coll.load(vec![aged(1, 30), aged(2, 20), aged(3, 25)]).unwrap();
    coll
}

struct Person;

impl Document for Person {
    fn key_fields() -> KeyFields {
        vec![
            KeyField::new("age", IndexKind::NonUnique, KeyType::Int),
            KeyField::new("name", IndexKind::Unique, KeyType::String),
        ]
    }
}

#[test]
fn create_index_fills_from_stored_documents() {
    let mut storage = Storage::new();
    let mut coll = stocked();
    assert_eq!(coll.has_index("age"), Ok(false));
    assert_eq!(
        coll.create_index(&mut storage, "age", IndexKind::NonUnique, KeyType::Int),
        Ok(true)
    );
    assert_eq!(coll.has_index("age"), Ok(true));
    let index = coll.get_index("age").unwrap().unwrap();
    assert_eq!(index.query_iter(OrderKind::Asc), vec![2, 3, 1]);
    assert_eq!(
        index.get_def(),
        &IndexDef {
            serial: 1,
            coll: "people".to_string(),
            path: "age".to_string(),
            kind: IndexKind::NonUnique,
            key: KeyType::Int,
        }
    );
}

#[test]
fn create_index_takes_a_serial_only_when_it_creates() {
    let mut storage = Storage::resume(10);
    let mut coll = stocked();
    coll.create_index(&mut storage, "age", IndexKind::NonUnique, KeyType::Int).unwrap();
    assert_eq!(
        coll.create_index(&mut storage, "age", IndexKind::Unique, KeyType::UInt),
        Ok(false)
    );
    coll.create_index(&mut storage, "name", IndexKind::Unique, KeyType::String).unwrap();
    assert_eq!(coll.get_index("age").unwrap().unwrap().get_def().serial, 11);
    assert_eq!(coll.get_index("age").unwrap().unwrap().kind(), IndexKind::NonUnique);
    assert_eq!(coll.get_index("name").unwrap().unwrap().get_def().serial, 12);
}

#[test]
fn drop_index_removes_it() {
    let mut storage = Storage::new();
    let mut coll = stocked();
    coll.create_index(&mut storage, "age", IndexKind::NonUnique, KeyType::Int).unwrap();
    assert_eq!(coll.drop_index("age"), Ok(true));
    assert_eq!(coll.has_index("age"), Ok(false));
    assert_eq!(coll.drop_index("age"), Ok(false));
    assert!(coll.get_index("age").unwrap().is_none());
    assert_eq!(
        coll.req_index("age").err(),
        Some(CollectionError::MissingIndex("age".to_string()))
    );
}

#[test]
fn ensure_index_rebuilds_when_the_key_type_differs() {
    let mut storage = Storage::new();
    let mut coll = stocked();
    coll.put(RawDocument::new(vec![Field::new("age", KeyData::UInt(5))]).with_id(9)).unwrap();
    assert_eq!(
        coll.ensure_index(&mut storage, "age", IndexKind::NonUnique, KeyType::Int),
        Ok(true)
    );
    assert_eq!(coll.req_index("age").unwrap().query_iter(OrderKind::Asc), vec![2, 3, 1]);
    assert_eq!(
        coll.ensure_index(&mut storage, "age", IndexKind::NonUnique, KeyType::UInt),
        Ok(true)
    );
    assert_eq!(coll.req_index("age").unwrap().query_iter(OrderKind::Asc), vec![9]);
    assert_eq!(coll.req_index("age").unwrap().get_def().serial, 2);
    assert_eq!(
        coll.ensure_index(&mut storage, "age", IndexKind::NonUnique, KeyType::UInt),
        Ok(false)
    );
    assert_eq!(coll.req_index("age").unwrap().get_def().serial, 2);
}

#[test]
fn set_indexes_ensures_each_and_keeps_the_others() {
    let mut storage = Storage::new();
    let mut coll = stocked();
    coll.create_index(&mut storage, "city", IndexKind::NonUnique, KeyType::String).unwrap();
    coll.create_index(&mut storage, "age", IndexKind::Unique, KeyType::Int).unwrap();
    let wanted = vec![
        KeyField::new("age", IndexKind::NonUnique, KeyType::Int),
        KeyField::new("name", IndexKind::Unique, KeyType::String),
    ];
    assert_eq!(coll.set_indexes(&mut storage, &wanted), Ok(()));
    assert_eq!(
        coll.get_indexes(),
        Ok(vec![
            KeyField::new("city", IndexKind::NonUnique, KeyType::String),
            KeyField::new("age", IndexKind::NonUnique, KeyType::Int),
            KeyField::new("name", IndexKind::Unique, KeyType::String),
        ])
    );
    assert_eq!(coll.req_index("age").unwrap().query_iter(OrderKind::Asc), vec![2, 3, 1]);
    assert_eq!(coll.req_index("age").unwrap().get_def().serial, 3);
    assert_eq!(coll.req_index("name").unwrap().get_def().serial, 4);
}

#[test]
fn index_takes_the_fields_of_the_document_type() {
    let mut storage = Storage::new();
    let mut coll = stocked();
    assert_eq!(coll.index::<Person>(&mut storage), Ok(()));
    assert_eq!(coll.get_indexes(), Ok(Person::key_fields()));
    assert_eq!(coll.index::<Person>(&mut storage), Ok(()));
    assert_eq!(coll.get_indexes(), Ok(Person::key_fields()));
    assert_eq!(coll.req_index("name").unwrap().get_def().serial, 2);
}

#[test]
fn with_two_indexes_on_a_path_the_first_answers() {
    let defs = vec![
        IndexDef::new("people", "age", IndexKind::NonUnique, KeyType::Int),
        IndexDef::new("people", "age", IndexKind::NonUnique, KeyType::UInt),
    ];
    let mut storage = Storage::new();
    let mut coll = Collection::new(CollectionDef::new("people"), defs).unwrap();
    coll.put(aged(1, 30)).unwrap();
    assert_eq!(coll.req_index("age").unwrap().key(), KeyType::Int);
    assert_eq!(
        coll.ensure_index(&mut storage, "age", IndexKind::Unique, KeyType::Int),
        Ok(false)
    );
    assert_eq!(coll.req_index("age").unwrap().key(), KeyType::UInt);
    assert_eq!(coll.get_indexes().unwrap().len(), 1);
}

#[test]
fn collection_keeps_the_given_index_definitions() {
    let defs = vec![
        IndexDef::new("people", "age", IndexKind::NonUnique, KeyType::Int),
        IndexDef::new("people", "name", IndexKind::Unique, KeyType::String),
    ];
    let coll = Collection::with_db_name(
        CollectionDef(3, "people".to_string()),
        defs,
        "somewhere".to_string(),
    );
    assert_eq!(coll.name(), "people");
    assert_eq!(coll.db_name(), "somewhere");
    assert_eq!(
        coll.get_indexes(),
        Ok(vec![
            KeyField::new("age", IndexKind::NonUnique, KeyType::Int),
            KeyField::new("name", IndexKind::Unique, KeyType::String),
        ])
    );
    assert_eq!(coll.last_id(), Ok(0));
}

#[test]
fn index_does_nothing_without_serials_for_every_field() {
    let mut storage = Storage::resume(u64::MAX - 1);
    let mut coll = stocked();
    assert_eq!(coll.index::<Person>(&mut storage), Err(CollectionError::Storage));
    assert_eq!(coll.get_indexes(), Ok(Vec::new()));
    assert!(storage.room_for(1));
    assert!(!storage.room_for(2));
    assert_eq!(
        coll.create_index(&mut storage, "age", IndexKind::NonUnique, KeyType::Int),
        Ok(true)
    );
    assert_eq!(coll.req_index("age").unwrap().get_def().serial, u64::MAX);
    assert!(!storage.has_room());
}
