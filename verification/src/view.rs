//! The mathematical view of a collection, and what each operation makes
//! of it.

use vstd::prelude::*;

use crate::document::DocValue;
use crate::document::doc_keys;
use crate::document::FieldValue;
use crate::document::Modify;
use crate::filter::Filter;
use crate::index::entries_sorted;
use crate::index::entry_ids;
use crate::key::KeyValue;
use crate::primary::decreasing;
use crate::primary::increasing;
use crate::types::IndexDefValue;
use crate::types::IndexKind;
use crate::types::KeyFieldValue;
use crate::types::KeyType;
use crate::types::Order;
use crate::types::OrderKind;
use crate::types::Primary;
use crate::types::Serial;

verus! {

/// The entries that an index with the definition `def` holds when it is
/// consistent with the documents `docs`: for each document, its keys under
/// the index's path.
pub open spec fn derived_entries(
    docs: Map<Primary, Seq<FieldValue>>,
    def: IndexDefValue,
) -> Set<(KeyValue, Primary)> {
    Set::new(
        |e: (KeyValue, Primary)|
            docs.contains_key(e.1) && doc_keys(docs[e.1], def.path, def.key).contains(e.0),
    )
}

/// Whether `es` is the content of a consistent index, in the order of the
/// index.
pub open spec fn is_index_content(
    es: Seq<(KeyValue, Primary)>,
    docs: Map<Primary, Seq<FieldValue>>,
    def: IndexDefValue,
) -> bool {
    entries_sorted(es) && es.to_set() == derived_entries(docs, def)
}

/// Whether some index covers the field path.
pub open spec fn has_index(defs: Seq<IndexDefValue>, path: Seq<char>) -> bool {
    exists|i: int| 0 <= i < defs.len() && (#[trigger] defs[i]).path == path
}

/// Whether `i` is the position of the first index that covers the field
/// path.
pub open spec fn is_first_index(defs: Seq<IndexDefValue>, path: Seq<char>, i: int) -> bool {
    &&& 0 <= i < defs.len()
    &&& defs[i].path == path
    &&& forall|j: int| 0 <= j < i ==> (#[trigger] defs[j]).path != path
}

/// The position of the first index that covers the field path.
pub open spec fn first_index(defs: Seq<IndexDefValue>, path: Seq<char>) -> int {
    choose|i: int| is_first_index(defs, path, i)
}

proof fn lemma_least_index(defs: Seq<IndexDefValue>, path: Seq<char>, i: int)
    requires
        0 <= i < defs.len(),
        defs[i].path == path,
    ensures
        exists|j: int| is_first_index(defs, path, j),
    decreases i,
{
    if exists|j: int| 0 <= j < i && (#[trigger] defs[j]).path == path {
        let j = choose|j: int| 0 <= j < i && (#[trigger] defs[j]).path == path;
        lemma_least_index(defs, path, j);
    } else {
        assert(is_first_index(defs, path, i));
    }
}

/// Where an index covers a field path, one of them is the first, and it
/// covers the path.
pub proof fn lemma_index_def(defs: Seq<IndexDefValue>, path: Seq<char>)
    requires
        has_index(defs, path),
    ensures
        is_first_index(defs, path, first_index(defs, path)),
        defs[first_index(defs, path)].path == path,
{
    let i = choose|i: int| 0 <= i < defs.len() && (#[trigger] defs[i]).path == path;
    lemma_least_index(defs, path, i);
}

/// Being in step with the backing store is a matter of the documents and
/// of what was noted of their changes, and of nothing else.
pub proof fn lemma_in_step_same(a: CollectionView, b: CollectionView)
    requires
        a.in_step(),
        a.docs == b.docs,
        a.stored == b.stored,
        a.touched == b.touched,
        a.cleared == b.cleared,
    ensures
        b.in_step(),
{
    if !b.cleared {
        assert forall|id: Primary| !b.touched.contains(id) implies (#[trigger] b.docs.contains_key(
            id,
        )) == b.stored.contains_key(id) && (b.docs.contains_key(id) ==> b.docs[id]
            == b.stored[id]) by {
            assert(a.docs.contains_key(id) == a.stored.contains_key(id));
        }
    }
}

/// Touching a document keeps the collection in step, whatever becomes of
/// the document.
pub proof fn lemma_in_step_touch(a: CollectionView, b: CollectionView, id: Primary)
    requires
        a.in_step(),
        a.stored == b.stored,
        b.touched == a.touched.insert(id),
        a.cleared == b.cleared,
        forall|k: Primary|
            k != id ==> (#[trigger] b.docs.contains_key(k)) == a.docs.contains_key(k) && (
            b.docs.contains_key(k) ==> b.docs[k] == a.docs[k]),
    ensures
        b.in_step(),
{
    if !b.cleared {
        assert forall|k: Primary| !b.touched.contains(k) implies (#[trigger] b.docs.contains_key(
            k,
        )) == b.stored.contains_key(k) && (b.docs.contains_key(k) ==> b.docs[k]
            == b.stored[k]) by {
            assert(a.docs.contains_key(k) == a.stored.contains_key(k));
        }
    }
}

/// Whether `id` is the last identifier of `docs`: the greatest one, or `0`
/// where there is no document.
pub open spec fn is_last_id(docs: Map<Primary, Seq<FieldValue>>, id: Primary) -> bool {
    &&& forall|k: Primary| docs.contains_key(k) ==> k <= id
    &&& docs.contains_key(id) || (id == 0 && docs.dom() == Set::<Primary>::empty())
}

/// Whether `ids` lists exactly the identifiers of `set`, in increasing or
/// decreasing numeric order.
pub open spec fn is_primary_order(ids: Seq<Primary>, set: Set<Primary>, order: OrderKind) -> bool {
    &&& ids.to_set() == set
    &&& match order {
        OrderKind::Asc => increasing(ids),
        OrderKind::Desc => decreasing(ids),
    }
}

/// The documents that a load of `docs` leaves: each under its identifier,
/// a later one in place of an earlier one with the same identifier.
pub open spec fn loaded(docs: Seq<DocValue>) -> Map<Primary, Seq<FieldValue>>
    decreases docs.len(),
{
    if docs.len() == 0 {
        Map::empty()
    } else {
        let last = docs.last();
        match last.id {
            Some(id) => loaded(docs.drop_last()).insert(id, last.fields),
            None => loaded(docs.drop_last()),
        }
    }
}

/// The identifiers that the documents of a list carry.
pub open spec fn primaries(docs: Seq<DocValue>) -> Set<Primary> {
    Set::new(
        |id: Primary| exists|i: int| 0 <= i < docs.len() && (#[trigger] docs[i]).id == Some(id),
    )
}

/// Whether every document of `docs` carries an identifier.
pub open spec fn all_identified(docs: Seq<DocValue>) -> bool {
    forall|i: int| 0 <= i < docs.len() ==> (#[trigger] docs[i]).id is Some
}

/// The field path by whose index an order sorts, if it sorts by one.
pub open spec fn order_path(order: Order) -> Option<Seq<char>> {
    match order {
        Order::Primary(_) => None,
        Order::Field(p, _) => Some(p@),
    }
}

/// The mathematical view of a collection.
pub struct CollectionView {
    /// The name of the collection.
    pub name: Seq<char>,
    /// The name of the primary map in the persisted layout.
    pub db_name: Seq<char>,
    /// The documents, under their identifiers.
    pub docs: Map<Primary, Seq<FieldValue>>,
    /// The definitions of the indexes, in the order of their creation.
    pub indexes: Seq<IndexDefValue>,
    /// Whether the collection is marked for removal.
    pub deleted: bool,
    /// The documents as the backing store held them when the changes
    /// were last taken.
    pub stored: Map<Primary, Seq<FieldValue>>,
    /// The identifiers of the documents that were written or removed
    /// since.
    pub touched: Set<Primary>,
    /// Whether all documents were removed since.
    pub cleared: bool,
}

impl CollectionView {
    /// The last identifier: the greatest one in use, `0` in an empty
    /// collection.
    pub open spec fn last_id(self) -> Primary {
        choose|id: Primary| is_last_id(self.docs, id)
    }

    /// Whether the collection is in step with the backing store: apart
    /// from the touched documents, it holds what the store held when the
    /// changes were last taken, unless it was cleared since.
    pub open spec fn in_step(self) -> bool {
        self.cleared || forall|id: Primary|
            !self.touched.contains(id) ==> (#[trigger] self.docs.contains_key(id))
                == self.stored.contains_key(id) && (self.docs.contains_key(id) ==> self.docs[id]
                == self.stored[id])
    }

    /// What the backing store holds once the changes are written to it:
    /// all documents anew where the collection was cleared, else each
    /// touched document as the collection has it, or gone where the
    /// collection has it no longer.
    pub open spec fn written(self) -> Map<Primary, Seq<FieldValue>> {
        if self.cleared {
            self.docs
        } else {
            Map::new(
                |id: Primary|
                    if self.touched.contains(id) {
                        self.docs.contains_key(id)
                    } else {
                        self.stored.contains_key(id)
                    },
                |id: Primary|
                    if self.touched.contains(id) {
                        self.docs[id]
                    } else {
                        self.stored[id]
                    },
            )
        }
    }

    /// The collection once its changes were taken to be written.
    pub open spec fn taken(self) -> CollectionView {
        CollectionView { stored: self.docs, touched: Set::empty(), cleared: false, ..self }
    }

    /// The identifier that the next inserted document takes.
    pub open spec fn new_id(self) -> Primary {
        (self.last_id() + 1) as Primary
    }

    /// Whether a document is stored under `id`.
    pub open spec fn has(self, id: Primary) -> bool {
        self.docs.contains_key(id)
    }

    /// The document stored under `id`, if there is one.
    pub open spec fn get(self, id: Primary) -> Option<DocValue> {
        if self.docs.contains_key(id) {
            Some(DocValue { id: Some(id), fields: self.docs[id] })
        } else {
            None
        }
    }

    /// The collection with `fields` stored under the next identifier.
    pub open spec fn insert(self, fields: Seq<FieldValue>) -> CollectionView {
        self.put(self.new_id(), fields)
    }

    /// The collection with `fields` stored under `id`.
    pub open spec fn put(self, id: Primary, fields: Seq<FieldValue>) -> CollectionView {
        CollectionView {
            docs: self.docs.insert(id, fields),
            touched: self.touched.insert(id),
            ..self
        }
    }

    /// The collection without the document `id`.
    pub open spec fn delete(self, id: Primary) -> CollectionView {
        if self.docs.contains_key(id) {
            CollectionView {
                docs: self.docs.remove(id),
                touched: self.touched.insert(id),
                ..self
            }
        } else {
            self
        }
    }

    /// The collection without documents.
    pub open spec fn purge(self) -> CollectionView {
        CollectionView { docs: Map::empty(), touched: Set::empty(), cleared: true, ..self }
    }

    /// The collection after a load of `docs`: these documents and no
    /// others, or none at all where one of them has no identifier.
    pub open spec fn load(self, docs: Seq<DocValue>) -> CollectionView {
        if all_identified(docs) {
            CollectionView {
                docs: loaded(docs),
                touched: primaries(docs),
                cleared: true,
                ..self
            }
        } else {
            self.purge()
        }
    }

    /// Whether an index covers the field path.
    pub open spec fn has_index(self, path: Seq<char>) -> bool {
        has_index(self.indexes, path)
    }

    /// The definition of the first index that covers the field path.
    pub open spec fn index_def(self, path: Seq<char>) -> IndexDefValue {
        self.indexes[first_index(self.indexes, path)]
    }

    /// The identifiers of the documents that meet the filter; of all
    /// documents where there is no filter.
    pub open spec fn find_ids(self, filter: Option<Filter>) -> Set<Primary> {
        match filter {
            None => self.docs.dom(),
            Some(f) => Set::new(
                |id: Primary|
                    self.docs.contains_key(id) && f.matches(
                        self.docs[id],
                        self.index_def(f.path()).key,
                    ),
            ),
        }
    }

    /// The field path for whose missing index a query is refused, if it
    /// is: the path that the filter tests, else the path of the order.
    pub open spec fn missing_index(self, filter: Option<Filter>, order_path: Option<Seq<char>>) -> Option<
        Seq<char>,
    > {
        if filter is Some && !self.has_index(filter->0.path()) {
            Some(filter->0.path())
        } else if order_path is Some && !self.has_index(order_path->0) {
            order_path
        } else {
            None
        }
    }

    /// Whether `ids` is what a query with the given filter yields in
    /// primary order: the identifiers of the matching documents, in
    /// numeric order.
    pub open spec fn found_by_primary(
        self,
        filter: Option<Filter>,
        order: OrderKind,
        ids: Seq<Primary>,
    ) -> bool {
        is_primary_order(ids, self.find_ids(filter), order)
    }

    /// Whether `ids` is what a query with the given filter yields in the
    /// order of the index on `path`: the identifiers of the entries of
    /// the index, in the order of the entries or in the reverse of it,
    /// without those of documents that do not match.
    pub open spec fn found_by_field(
        self,
        filter: Option<Filter>,
        path: Seq<char>,
        order: OrderKind,
        ids: Seq<Primary>,
    ) -> bool {
        exists|es: Seq<(KeyValue, Primary)>|
            #![trigger is_index_content(es, self.docs, self.index_def(path))]
            is_index_content(es, self.docs, self.index_def(path)) && ids == entry_ids(
                es,
                order,
            ).filter(|id: Primary| self.find_ids(filter).contains(id))
    }

    /// Whether `ids` is what a query with the given filter and order
    /// yields.
    pub open spec fn found(self, filter: Option<Filter>, order: Order, ids: Seq<Primary>) -> bool {
        match order {
            Order::Primary(k) => self.found_by_primary(filter, k, ids),
            Order::Field(p, k) => self.found_by_field(filter, p@, k, ids),
        }
    }

    /// The stored documents with the identifiers `ids`, in that order.
    pub open spec fn documents(self, ids: Seq<Primary>) -> Seq<DocValue> {
        ids.map_values(|id: Primary| DocValue { id: Some(id), fields: self.docs[id] })
    }

    /// The collection after the change `modify` was applied to each
    /// document that meets the filter.
    pub open spec fn update(self, filter: Option<Filter>, modify: Modify) -> CollectionView {
        CollectionView {
            docs: Map::new(
                |id: Primary| self.docs.contains_key(id),
                |id: Primary|
                    if self.find_ids(filter).contains(id) {
                        modify.applied(self.docs[id])
                    } else {
                        self.docs[id]
                    },
            ),
            touched: self.touched.union(self.find_ids(filter)),
            ..self
        }
    }

    /// The collection without the documents that meet the filter.
    pub open spec fn remove(self, filter: Option<Filter>) -> CollectionView {
        CollectionView {
            docs: self.docs.remove_keys(self.find_ids(filter)),
            touched: self.touched.union(self.find_ids(filter)),
            ..self
        }
    }

    /// The collection with one more index, on `path`, unless an index
    /// covers `path` already.
    pub open spec fn create_index(
        self,
        serial: Serial,
        path: Seq<char>,
        kind: IndexKind,
        key: KeyType,
    ) -> CollectionView {
        if self.has_index(path) {
            self
        } else {
            CollectionView {
                indexes: self.indexes.push(
                    IndexDefValue { serial, coll: self.name, path, kind, key },
                ),
                ..self
            }
        }
    }

    /// The collection without the first index that covers `path`.
    pub open spec fn drop_index(self, path: Seq<char>) -> CollectionView {
        if self.has_index(path) {
            CollectionView {
                indexes: self.indexes.remove(first_index(self.indexes, path)),
                ..self
            }
        } else {
            self
        }
    }

    /// Whether the first index that covers `path` has this kind and this
    /// key type.
    pub open spec fn index_agrees(self, path: Seq<char>, kind: IndexKind, key: KeyType) -> bool {
        self.has_index(path) && self.index_def(path).kind == kind && self.index_def(path).key
            == key
    }

    /// The collection after an index on `path` with this kind and key type
    /// was ensured: unchanged where the first index on `path` agrees;
    /// else that index is dropped and a new one created.
    pub open spec fn ensure_index(
        self,
        serial: Serial,
        path: Seq<char>,
        kind: IndexKind,
        key: KeyType,
    ) -> CollectionView {
        if self.index_agrees(path, kind, key) {
            self
        } else {
            self.drop_index(path).create_index(serial, path, kind, key)
        }
    }

    /// Whether ensuring such an index creates one.
    pub open spec fn ensure_creates(self, path: Seq<char>, kind: IndexKind, key: KeyType) -> bool {
        !self.index_agrees(path, kind, key) && !self.drop_index(path).has_index(path)
    }

    /// The collection after each of `fields` was ensured in turn, and the
    /// last serial that was handed out by then, where `last` was the last
    /// one before: each new index takes the next serial.
    pub open spec fn ensure_all(self, last: int, fields: Seq<KeyFieldValue>) -> (
        CollectionView,
        int,
    )
        decreases fields.len(),
    {
        if fields.len() == 0 {
            (self, last)
        } else {
            let (before, used) = self.ensure_all(last, fields.drop_last());
            let f = fields.last();
            (
                before.ensure_index((used + 1) as Serial, f.path, f.kind, f.key),
                if before.ensure_creates(f.path, f.kind, f.key) {
                    used + 1
                } else {
                    used
                },
            )
        }
    }
}

} // verus!
