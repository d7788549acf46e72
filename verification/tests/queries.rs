use std::collections::HashSet;

use ledb::collection::{Collection, DocumentsIterator};
use ledb::document::{Field, RawDocument};
use ledb::filter::Filter;
use ledb::key::KeyData;
use ledb::types::{
    CollectionDef, CollectionError, IndexDef, IndexKind, KeyType, Order, OrderKind,
};

fn doc(id: u64, age: Option<i64>, city: &str) -> RawDocument {
    let mut fields = vec![Field::new("city", KeyData::String(city.to_string()))];
    if let Some(age) = age {
        fields.push(Field::new("age", KeyData::Int(age)));
    }
    RawDocument::new(fields).with_id(id)
}

fn sample() -> Collection {
    let defs = vec![
        IndexDef::new("people", "age", IndexKind::NonUnique, KeyType::Int),
        IndexDef::new("people", "city", IndexKind::NonUnique, KeyType::String),
    ];
    let mut coll = Collection::new(CollectionDef::new("people"), defs).unwrap();
    coll.load(vec![
        doc(1, Some(30), "rome"),
        doc(2, Some(20), "oslo"),
        doc(3, Some(25), "rome"),
        doc(4, None, "oslo"),
        doc(5, Some(20), "rome"),
    ])
    .unwrap();
    coll
}

fn ids_of(coll: &Collection, mut found: DocumentsIterator) -> Vec<u64> {
    let mut out = Vec::new();
    while let Some(doc) = found.next(coll) {
        out.push(doc.unwrap().get_id().unwrap());
    }
    out
}

fn find(coll: &Collection, filter: Option<Filter>, order: Order) -> Vec<u64> {
    ids_of(coll, coll.find(filter, order).unwrap())
}

fn by(path: &str, kind: OrderKind) -> Order {
    Order::Field(path.to_string(), kind)
}

fn city_is(city: &str) -> Filter {
    Filter::field_eq("city", KeyData::String(city.to_string()))
}

fn age_is(age: i64) -> Filter {
    Filter::field_eq("age", KeyData::Int(age))
}

fn set_of(ids: &[u64]) -> HashSet<u64> {
    ids.iter().copied().collect()
}

#[test]
fn no_filter_primary_order() {
    let coll = sample();
    assert_eq!(find(&coll, None, Order::Primary(OrderKind::Asc)), vec![1, 2, 3, 4, 5]);
    assert_eq!(find(&coll, None, Order::Primary(OrderKind::Desc)), vec![5, 4, 3, 2, 1]);
}

#[test]
fn no_filter_field_order_leaves_out_documents_without_the_field() {
    let coll = sample();
    assert_eq!(find(&coll, None, by("age", OrderKind::Asc)), vec![2, 5, 3, 1]);
    assert_eq!(find(&coll, None, by("age", OrderKind::Desc)), vec![1, 3, 5, 2]);
    assert_eq!(find(&coll, None, by("city", OrderKind::Asc)), vec![2, 4, 1, 3, 5]);
}

#[test]
fn filter_primary_order_sorts_the_selection() {
    let coll = sample();
    assert_eq!(find(&coll, Some(city_is("rome")), Order::Primary(OrderKind::Asc)), vec![1, 3, 5]);
    assert_eq!(find(&coll, Some(city_is("rome")), Order::Primary(OrderKind::Desc)), vec![5, 3, 1]);
    assert!(find(&coll, Some(city_is("lima")), Order::Primary(OrderKind::Asc)).is_empty());
}

#[test]
fn negated_filter_primary_order_scans_the_primary_map() {
    let coll = sample();
    let not_rome = || Some(Filter::not(city_is("rome")));
    assert_eq!(find(&coll, not_rome(), Order::Primary(OrderKind::Asc)), vec![2, 4]);
    assert_eq!(find(&coll, not_rome(), Order::Primary(OrderKind::Desc)), vec![4, 2]);
    let not_not_rome = Some(Filter::not(Filter::not(city_is("rome"))));
    assert_eq!(find(&coll, not_not_rome, Order::Primary(OrderKind::Desc)), vec![5, 3, 1]);
}

#[test]
fn filter_field_order_filters_the_index_scan() {
    let coll = sample();
    assert_eq!(find(&coll, Some(city_is("rome")), by("age", OrderKind::Asc)), vec![5, 3, 1]);
    assert_eq!(find(&coll, Some(city_is("rome")), by("age", OrderKind::Desc)), vec![1, 3, 5]);
    let not_rome = Some(Filter::not(city_is("rome")));
    assert_eq!(find(&coll, not_rome, by("age", OrderKind::Asc)), vec![2]);
    let not_twenty = Some(Filter::not(age_is(20)));
    assert_eq!(find(&coll, not_twenty, by("city", OrderKind::Asc)), vec![4, 1, 3]);
}

#[test]
fn order_by_unindexed_field_is_refused() {
    let coll = sample();
    let missing = CollectionError::MissingIndex("name".to_string());
    assert_eq!(coll.find(None, by("name", OrderKind::Asc)).err(), Some(missing));
    let missing = CollectionError::MissingIndex("name".to_string());
    assert_eq!(coll.find_all(Some(age_is(20)), by("name", OrderKind::Asc)), Err(missing));
}

#[test]
fn filter_on_unindexed_field_is_refused_first() {
    let coll = sample();
    let filter = || Some(Filter::field_eq("zip", KeyData::Int(1)));
    let missing = || CollectionError::MissingIndex("zip".to_string());
    assert_eq!(coll.find(filter(), Order::default()).err(), Some(missing()));
    assert_eq!(coll.find(filter(), by("name", OrderKind::Asc)).err(), Some(missing()));
    assert_eq!(coll.find_ids(filter()), Err(missing()));
    assert_eq!(coll.find_ids(Some(Filter::not(filter().unwrap()))), Err(missing()));
}

#[test]
fn find_ids_gives_the_matching_set() {
    let coll = sample();
    assert_eq!(coll.find_ids(None), Ok(set_of(&[1, 2, 3, 4, 5])));
    assert_eq!(coll.find_ids(Some(age_is(20))), Ok(set_of(&[2, 5])));
    assert_eq!(coll.find_ids(Some(age_is(21))), Ok(HashSet::new()));
    assert_eq!(coll.find_ids(Some(Filter::field_eq("age", KeyData::UInt(20)))), Ok(HashSet::new()));
}

#[test]
fn filter_and_negation_part_the_documents() {
    let coll = sample();
    let all = coll.find_ids(None).unwrap();
    for filter in [age_is(20), age_is(99), city_is("oslo")] {
        let yes = coll.find_ids(Some(filter.clone())).unwrap();
        let no = coll.find_ids(Some(Filter::not(filter))).unwrap();
        assert!(yes.is_disjoint(&no));
        let both: HashSet<u64> = yes.union(&no).copied().collect();
        assert_eq!(both, all);
    }
}

#[test]
fn a_document_is_found_by_each_of_its_keys() {
    let coll = sample();
    for id in 1..=5u64 {
        let stored = coll.get(id).unwrap().unwrap();
        for field in stored.fields.iter() {
            let filter = Filter::Eq(field.path.clone(), field.value.clone());
            let found = coll.find_ids(Some(filter)).unwrap();
            assert!(found.contains(&id));
            assert!(found.is_subset(&coll.find_ids(None).unwrap()));
        }
    }
}

#[test]
fn find_all_fetches_the_documents_in_order() {
    let coll = sample();
    let found = coll.find_all(Some(age_is(20)), Order::Primary(OrderKind::Desc)).unwrap();
    assert_eq!(found, vec![doc(5, Some(20), "rome"), doc(2, Some(20), "oslo")]);
}

#[test]
fn found_documents_know_how_many_are_left() {
    let coll = sample();
    let mut found = coll.find(None, Order::default()).unwrap();
    assert_eq!(found.len(), 5);
    assert_eq!(found.size_hint(), (5, Some(5)));
    found.next(&coll);
    found.next(&coll);
    assert_eq!(found.len(), 3);
    assert_eq!(found.size_hint(), (3, Some(3)));
}

#[test]
fn a_document_is_fetched_as_it_stands_when_asked_for() {
    let mut coll = sample();
    let mut found = coll.find(None, Order::default()).unwrap();
    assert_eq!(found.next(&coll), Some(Ok(doc(1, Some(30), "rome"))));
    coll.put(doc(2, Some(77), "lima")).unwrap();
    assert_eq!(found.next(&coll), Some(Ok(doc(2, Some(77), "lima"))));
}

#[test]
fn a_document_that_is_gone_ends_the_fetching() {
    let mut coll = sample();
    let mut found = coll.find(None, Order::default()).unwrap();
    assert_eq!(found.next(&coll), Some(Ok(doc(1, Some(30), "rome"))));
    coll.delete(2).unwrap();
    assert_eq!(found.next(&coll), Some(Err(CollectionError::Storage)));
    assert_eq!(found.len(), 0);
    assert_eq!(found.next(&coll), None);
}

#[test]
fn a_filter_evaluates_to_a_selection() {
    let coll = sample();
    let sel = city_is("oslo").apply(&coll).unwrap();
    assert!(!sel.inv);
    assert_eq!(sel.ids, set_of(&[2, 4]));
    let sel = Filter::not(city_is("oslo")).apply(&coll).unwrap();
    assert!(sel.inv);
    assert_eq!(sel.ids, set_of(&[2, 4]));
    assert!(sel.has(1) && !sel.has(2) && sel.has(999));
    let missing = Filter::field_eq("zip", KeyData::Int(1)).apply(&coll).err();
    assert_eq!(missing, Some(CollectionError::MissingIndex("zip".to_string())));
}
