use ledb::collection::Collection;
use ledb::types::{CollectionDef, Enumerable, IndexDef, IndexKind, KeyType, Storage};

#[test]
fn primary_map_is_named_by_serial_and_name() {
    let coll = Collection::new(CollectionDef(7, "users".to_string()), Vec::new()).unwrap();
    assert_eq!(coll.name(), "users");
    assert_eq!(coll.db_name(), "(7,\"users\")");
}

#[test]
fn names_differ_by_serial_and_by_name() {
    let name = |serial: u64, name: &str| {
        let def = CollectionDef(serial, name.to_string());
        Collection::new(def, Vec::new()).unwrap().db_name().to_string()
    };
    assert_eq!(name(0, "a"), "(0,\"a\")");
    assert_ne!(name(1, "a"), name(2, "a"));
    assert_ne!(name(1, "a"), name(1, "b"));
    assert_eq!(name(1, "quo\"te"), "(1,\"quo\\\"te\")");
}

#[test]
fn enumerated_definition_names_the_map() {
    let mut storage = Storage::resume(4);
    let def = storage.enumerate(CollectionDef::new("users"));
    let defs = vec![IndexDef::new("users", "age", IndexKind::NonUnique, KeyType::Int)];
    let mut one = CollectionDef::new("x");
    one.enumerate(1);
    let coll = Collection::new(def, defs).unwrap();
    assert_eq!(coll.db_name(), "(5,\"users\")");
    assert_eq!(coll.has_index("age"), Ok(true));
    assert_eq!(one.0, 1);
}
