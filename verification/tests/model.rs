use std::collections::{BTreeMap, HashSet};

use ledb::collection::Collection;
use ledb::document::{Field, Modify, RawDocument};
use ledb::filter::Filter;
use ledb::key::KeyData;
use ledb::types::{CollectionDef, IndexKind, KeyType, Order, OrderKind, Storage};

struct Dice(u64);

impl Dice {
    fn roll(&mut self, sides: u64) -> u64 {
        self.0 = self.0.wrapping_mul(6364136223846793005).wrapping_add(1442695040888963407);
        (self.0 >> 33) % sides
    }
}

fn fields(a: i64, b: u64) -> Vec<Field> {
    vec![Field::new("a", KeyData::Int(a)), Field::new("b", KeyData::UInt(b))]
}

fn value_of(fields: &[Field], path: &str) -> Vec<KeyData> {
    fields.iter().filter(|f| f.path == path).map(|f| f.value.clone()).collect()
}

fn int_of(key: &KeyData) -> i64 {
    match key {
        KeyData::Int(v) => *v,
        _ => panic!("the model holds integers under a"),
    }
}

fn compare(
    coll: &Collection,
    model: &BTreeMap<u64, Vec<Field>>,
    disk: &BTreeMap<u64, Vec<Field>>,
    indexed: bool,
) {
    let keys: Vec<u64> = model.keys().copied().collect();
    let all: HashSet<u64> = keys.iter().copied().collect();
    assert_eq!(coll.find_ids(None).unwrap(), all);
    assert_eq!(coll.last_id().unwrap(), keys.last().copied().unwrap_or(0));
    let found = coll.find_all(None, Order::Primary(OrderKind::Asc)).unwrap();
    let ids: Vec<u64> = found.iter().map(|d| d.get_id().unwrap()).collect();
    assert_eq!(ids, keys);
    for doc in found.iter() {
        assert_eq!(&doc.fields, &model[&doc.get_id().unwrap()]);
    }
    let found = coll.find_all(None, Order::Primary(OrderKind::Desc)).unwrap();
    let ids: Vec<u64> = found.iter().map(|d| d.get_id().unwrap()).collect();
    assert_eq!(ids, keys.iter().rev().copied().collect::<Vec<u64>>());
    assert_eq!(coll.has_index("a").unwrap(), indexed);
    if indexed {
        let mut entries: Vec<(i64, u64)> = Vec::new();
        for (id, doc) in model.iter() {
            let mut seen: Vec<i64> = Vec::new();
            for key in value_of(doc, "a") {
                let v = int_of(&key);
                if !seen.contains(&v) {
                    seen.push(v);
                    entries.push((v, *id));
                }
            }
        }
        entries.sort();
        let by_a: Vec<u64> = entries.iter().map(|e| e.1).collect();
        let index = coll.req_index("a").unwrap();
        assert_eq!(index.query_iter(OrderKind::Asc), by_a);
        for a in 0..4i64 {
            let want: HashSet<u64> =
                entries.iter().filter(|e| e.0 == a).map(|e| e.1).collect();
            let filter = Filter::field_eq("a", KeyData::Int(a));
            assert_eq!(coll.find_ids(Some(filter.clone())).unwrap(), want);
            let rest: HashSet<u64> = all.difference(&want).copied().collect();
            assert_eq!(coll.find_ids(Some(Filter::not(filter.clone()))).unwrap(), rest);
            let sorted: Vec<u64> = keys.iter().rev().filter(|k| want.contains(*k)).copied().collect();
            let found = coll.find_all(Some(filter), Order::Primary(OrderKind::Desc)).unwrap();
            assert_eq!(found.iter().map(|d| d.get_id().unwrap()).collect::<Vec<u64>>(), sorted);
        }
    }
    assert_eq!(disk, model);
}

fn write_through(coll: &mut Collection, disk: &mut BTreeMap<u64, Vec<Field>>) {
    let changes = coll.take_changes();
    if changes.cleared {
        disk.clear();
    }
    for id in changes.touched.iter() {
        match coll.get(*id).unwrap() {
            Some(doc) => {
                disk.insert(*id, doc.into_inner());
            }
            None => {
                disk.remove(id);
            }
        }
    }
}

#[test]
fn collection_agrees_with_a_plain_map_over_many_operations() {
    let mut dice = Dice(20240611);
    let mut storage = Storage::new();
    let mut coll = Collection::new(CollectionDef::new("model"), Vec::new()).unwrap();
    let mut model: BTreeMap<u64, Vec<Field>> = BTreeMap::new();
    let mut disk: BTreeMap<u64, Vec<Field>> = BTreeMap::new();
    let mut indexed = false;
    for step in 0..600 {
        match dice.roll(12) {
            0 | 1 | 2 => {
                let doc = fields(dice.roll(4) as i64, dice.roll(3));
                let id = coll.insert(RawDocument::new(doc.clone())).unwrap();
                assert_eq!(id, model.keys().next_back().copied().unwrap_or(0) + 1);
                model.insert(id, doc);
            }
            3 | 4 => {
                let id = 1 + dice.roll(40);
                let mut doc = fields(dice.roll(4) as i64, dice.roll(3));
                if dice.roll(3) == 0 {
                    doc.push(Field::new("a", KeyData::Int(dice.roll(4) as i64)));
                }
                coll.put(RawDocument::new(doc.clone()).with_id(id)).unwrap();
                model.insert(id, doc);
            }
            5 | 6 => {
                let id = 1 + dice.roll(40);
                assert_eq!(coll.delete(id).unwrap(), model.remove(&id).is_some());
            }
            7 => {
                if indexed {
                    let a = dice.roll(4) as i64;
                    let to = dice.roll(4) as i64;
                    let negate = dice.roll(2) == 0;
                    let mut filter = Filter::field_eq("a", KeyData::Int(a));
                    if negate {
                        filter = Filter::not(filter);
                    }
                    let mut count = 0;
                    for doc in model.values_mut() {
                        let has = doc.contains(&Field::new("a", KeyData::Int(a)));
                        if has != negate {
                            doc.retain(|f| f.path != "a");
                            doc.push(Field::new("a", KeyData::Int(to)));
                            count += 1;
                        }
                    }
                    let modify = Modify::set("a", KeyData::Int(to));
                    assert_eq!(coll.update(Some(filter), modify).unwrap(), count);
                }
            }
            8 => {
                if indexed {
                    let a = dice.roll(4) as i64;
                    let before = model.len();
                    model.retain(|_, doc| !doc.contains(&Field::new("a", KeyData::Int(a))));
                    let filter = Filter::field_eq("a", KeyData::Int(a));
                    assert_eq!(coll.remove(Some(filter)).unwrap(), before - model.len());
                }
            }
            9 => {
                let created = coll
                    .ensure_index(&mut storage, "a", IndexKind::NonUnique, KeyType::Int)
                    .unwrap();
                assert_eq!(created, !indexed);
                indexed = true;
            }
            10 => {
                if dice.roll(4) == 0 {
                    assert_eq!(coll.drop_index("a").unwrap(), indexed);
                    indexed = false;
                }
            }
            _ => {
                if dice.roll(10) == 0 {
                    let docs: Vec<RawDocument> = (0..dice.roll(6))
                        .map(|_| {
                            let id = 1 + dice.roll(10);
                            RawDocument::new(fields(dice.roll(4) as i64, 0)).with_id(id)
                        })
                        .collect();
                    model.clear();
                    for doc in docs.iter() {
                        model.insert(doc.get_id().unwrap(), doc.fields.clone());
                    }
                    assert_eq!(coll.load(docs.clone()).unwrap(), docs.len());
                }
            }
        }
        if step % 3 == 0 {
            write_through(&mut coll, &mut disk);
            compare(&coll, &model, &disk, indexed);
        }
    }
    write_through(&mut coll, &mut disk);
    compare(&coll, &model, &disk, indexed);
}
