//! The collection: documents under primary identifiers, with the
//! secondary indexes kept consistent with them.

pub mod bulk;
pub mod indexes;
pub mod query;

use std::collections::HashSet;
use vstd::prelude::*;

use crate::document::clone_fields;
use crate::document::Field;
use crate::document::FieldValue;
use crate::document::RawDocument;
use crate::index::entries_of;
use crate::index::Index;
use crate::index::option_fields_view;
use crate::key::KeyValue;
use crate::naming::ron_pair;
use crate::naming::ron_pair_text;
use crate::primary::PrimaryMap;
use crate::types::CollectionDef;
use crate::types::CollectionError;
use crate::types::IndexDef;
use crate::types::IndexDefValue;
use crate::types::Primary;
use crate::view::CollectionView;
use crate::view::derived_entries;
use crate::view::is_index_content;
use crate::view::is_last_id;
use crate::view::lemma_in_step_same;
use crate::view::lemma_in_step_touch;

pub use self::query::DocumentsIterator;

verus! {

/// The definitions of a list of indexes.
pub open spec fn index_defs(indexes: Seq<Index>) -> Seq<IndexDefValue> {
    indexes.map_values(|x: Index| x.def())
}

/// Whether each index is well formed and holds exactly the entries that
/// the documents give under its definition.
pub open spec fn indexes_consistent(
    indexes: Seq<Index>,
    docs: Map<Primary, Seq<FieldValue>>,
) -> bool {
    forall|i: int|
        0 <= i < indexes.len() ==> (#[trigger] indexes[i]).inv() && indexes[i].entry_set()
            == derived_entries(docs, indexes[i].def())
}

/// What storing a document does to the entries of a consistent index.
pub proof fn lemma_derived_put(
    docs: Map<Primary, Seq<FieldValue>>,
    id: Primary,
    fields: Seq<FieldValue>,
    def: IndexDefValue,
)
    ensures
        derived_entries(docs.insert(id, fields), def) == derived_entries(docs, def).difference(
            entries_of(
                id,
                if docs.contains_key(id) {
                    Some(docs[id])
                } else {
                    None
                },
                def,
            ),
        ).union(entries_of(id, Some(fields), def)),
{
    let before = if docs.contains_key(id) {
        Some(docs[id])
    } else {
        None
    };
    assert(derived_entries(docs.insert(id, fields), def) =~= derived_entries(
        docs,
        def,
    ).difference(entries_of(id, before, def)).union(entries_of(id, Some(fields), def)));
}

/// What deleting a document does to the entries of a consistent index.
pub proof fn lemma_derived_delete(
    docs: Map<Primary, Seq<FieldValue>>,
    id: Primary,
    def: IndexDefValue,
)
    requires
        docs.contains_key(id),
    ensures
        derived_entries(docs.remove(id), def) == derived_entries(docs, def).difference(
            entries_of(id, Some(docs[id]), def),
        ).union(entries_of(id, None, def)),
        forall|k: KeyValue| !derived_entries(docs.remove(id), def).contains((k, id)),
{
    assert(derived_entries(docs.remove(id), def) =~= derived_entries(docs, def).difference(
        entries_of(id, Some(docs[id]), def),
    ).union(entries_of(id, None, def)));
}

/// A collection of documents.
pub struct Collection {
    name: String,
    db_name: String,
    docs: PrimaryMap,
    indexes: Vec<Index>,
    delete: bool,
    stored: Ghost<Map<Primary, Seq<FieldValue>>>,
    touched: HashSet<Primary>,
    cleared: bool,
}

/// What is to be written to the backing store to bring it in step with
/// a collection.
pub struct Changes {
    /// Whether the backing store is to be emptied and every document of
    /// the collection written anew.
    pub cleared: bool,
    /// The identifiers of the documents to write, or to remove where the
    /// collection holds them no longer.
    pub touched: HashSet<Primary>,
}

impl View for Collection {
    type V = CollectionView;

    closed spec fn view(&self) -> CollectionView {
        CollectionView {
            name: self.name@,
            db_name: self.db_name@,
            docs: self.docs@,
            indexes: index_defs(self.indexes@),
            deleted: self.delete,
            stored: self.stored@,
            touched: self.touched@,
            cleared: self.cleared,
        }
    }
}

impl Collection {
    /// The collection is well formed: the primary map is in order, and
    /// every index holds the entries of the stored documents and no
    /// others.
    pub closed spec fn inv(&self) -> bool {
        &&& self.docs.inv()
        &&& indexes_consistent(self.indexes@, self.docs@)
        &&& self@.in_step()
    }

    /// The entries of the index at position `i`, in their order.
    pub closed spec fn index_entries(&self, i: int) -> Seq<(KeyValue, Primary)> {
        self.indexes@[i].entries()
    }

    /// In a well-formed collection every index holds, in strict order,
    /// exactly the entries that the documents give under its definition,
    /// the documents are finitely many, and the collection is in step
    /// with the backing store.
    pub proof fn lemma_consistent(&self)
        requires
            self.inv(),
        ensures
            self@.docs.dom().finite(),
            self@.in_step(),
            forall|i: int|
                0 <= i < self@.indexes.len() ==> is_index_content(
                    #[trigger] self.index_entries(i),
                    self@.docs,
                    self@.indexes[i],
                ),
    {
        self.docs.lemma_keys();
        assert forall|i: int| 0 <= i < self@.indexes.len() implies is_index_content(
            #[trigger] self.index_entries(i),
            self@.docs,
            self@.indexes[i],
        ) by {
            assert(self.indexes@[i].inv());
            self.indexes@[i].lemma_sorted();
        }
    }

    /// A collection without documents, whose primary map goes by the name
    /// `db_name` in the persisted layout.
    pub fn with_db_name(def: CollectionDef, index_defs: Vec<IndexDef>, db_name: String) -> (r:
        Self)
        ensures
            r.inv(),
            r@ == (CollectionView {
                name: def.1@,
                db_name: db_name@,
                docs: Map::empty(),
                indexes: index_defs@.map_values(|d: IndexDef| d@),
                deleted: false,
                stored: Map::empty(),
                touched: Set::empty(),
                cleared: false,
            }),
    {
        let mut indexes: Vec<Index> = Vec::new();
        let docs = PrimaryMap::new();
        let n = index_defs.len();
        let mut i: usize = 0;
        while i < n
            invariant
                i <= n,
                n == index_defs@.len(),
                indexes@.len() == i,
                docs@ == Map::<Primary, Seq<FieldValue>>::empty(),
                indexes_consistent(indexes@, docs@),
                forall|j: int| 0 <= j < i ==> (#[trigger] indexes@[j]).def() == index_defs@[j]@,
            decreases n - i,
        {
            let index = Index::new(index_defs[i].clone());
            assert(index.entry_set() =~= derived_entries(docs@, index.def()));
            indexes.push(index);
            i = i + 1;
        }
        let CollectionDef(_serial, name) = def;
        let r = Collection {
            name,
            db_name,
            docs,
            indexes,
            delete: false,
            stored: Ghost(Map::empty()),
            touched: HashSet::new(),
            cleared: false,
        };
        assert(r@.indexes =~= index_defs@.map_values(|d: IndexDef| d@));
        r
    }

    /// A collection without documents, with an empty index for each of
    /// `index_defs`. Its primary map is named by the textual form of the
    /// pair of the definition's serial and name.
    pub fn new(def: CollectionDef, index_defs: Vec<IndexDef>) -> (r: Result<Self, CollectionError>)
        ensures
            match r {
                Ok(c) => c.inv() && ron_pair_text(def.0, def.1@) == Some(c@.db_name) && c@ == (
                CollectionView {
                    name: def.1@,
                    db_name: c@.db_name,
                    docs: Map::empty(),
                    indexes: index_defs@.map_values(|d: IndexDef| d@),
                    deleted: false,
                    stored: Map::empty(),
                    touched: Set::empty(),
                    cleared: false,
                }),
                Err(e) => e == CollectionError::Serialization && ron_pair_text(def.0, def.1@) is None,
            },
    {
        match ron_pair(def.0, def.1.as_str()) {
            Ok(db_name) => Ok(Self::with_db_name(def, index_defs, db_name)),
            Err(_) => Err(CollectionError::Serialization),
        }
    }

    /// The name of the collection.
    pub fn name(&self) -> (r: &str)
        ensures
            r@ == self@.name,
    {
        self.name.as_str()
    }

    /// The name of the primary map in the persisted layout.
    pub fn db_name(&self) -> (r: &str)
        ensures
            r@ == self@.db_name,
    {
        self.db_name.as_str()
    }

    /// Whether the collection is marked for removal.
    pub fn is_deleted(&self) -> (r: bool)
        ensures
            r == self@.deleted,
    {
        self.delete
    }

    /// Whether the collection holds a document under `id`.
    pub fn has(&self, id: Primary) -> (r: Result<bool, CollectionError>)
        requires
            self.inv(),
        ensures
            r == Ok::<bool, CollectionError>(self@.has(id)),
    {
        Ok(self.docs.contains(id))
    }

    /// The document stored under `id`, if there is one.
    pub fn get(&self, id: Primary) -> (r: Result<Option<RawDocument>, CollectionError>)
        requires
            self.inv(),
        ensures
            match r {
                Ok(Some(doc)) => self@.get(id) == Some(doc@),
                Ok(None) => self@.get(id) is None,
                Err(_) => false,
            },
    {
        match self.docs.get(id) {
            Some(fields) => Ok(Some(RawDocument { id: Some(id), fields: clone_fields(fields) })),
            None => Ok(None),
        }
    }

    /// The last identifier: the greatest one in use, `0` in an empty
    /// collection.
    pub fn last_id(&self) -> (r: Result<Primary, CollectionError>)
        requires
            self.inv(),
        ensures
            r == Ok::<Primary, CollectionError>(self@.last_id()),
            is_last_id(self@.docs, self@.last_id()),
    {
        let last = self.docs.last_key();
        let id = match last {
            Some(k) => k,
            None => 0,
        };
        proof {
            self.docs.lemma_keys();
            let keys = self.docs.keys();
            let docs = self@.docs;
            if keys.len() > 0 {
                assert(keys.to_set().contains(keys.last()));
                assert forall|k: Primary| docs.contains_key(k) implies k <= id by {
                    let i = choose|i: int| 0 <= i < keys.len() && keys[i] == k;
                    if i < keys.len() - 1 {
                        assert(keys[i] < keys[keys.len() - 1]);
                    }
                }
            } else {
                assert(docs.dom() =~= Set::<Primary>::empty());
            }
            assert(is_last_id(docs, id));
            lemma_last_id_unique(docs, id, self@.last_id());
        }
        Ok(id)
    }

    /// The identifier that the next inserted document takes.
    pub fn new_id(&self) -> (r: Result<Primary, CollectionError>)
        requires
            self.inv(),
            self@.last_id() < u64::MAX,
        ensures
            r == Ok::<Primary, CollectionError>(self@.new_id()),
            is_last_id(self@.docs, self@.last_id()),
    {
        match self.last_id() {
            Ok(id) => Ok(id + 1),
            Err(e) => Err(e),
        }
    }

    /// Brings every index up to date with a change of the document `id`.
    fn update_indexes(
        indexes: &mut Vec<Index>,
        id: Primary,
        old_fields: Option<&Vec<Field>>,
        new_fields: Option<&Vec<Field>>,
    ) -> (r: bool)
        requires
            forall|i: int| 0 <= i < old(indexes)@.len() ==> (#[trigger] old(indexes)@[i]).inv(),
        ensures
            r == (old_fields is Some),
            final(indexes)@.len() == old(indexes)@.len(),
            forall|i: int|
                0 <= i < old(indexes)@.len() ==> ({
                    let was = #[trigger] old(indexes)@[i];
                    let now = final(indexes)@[i];
                    &&& now.inv()
                    &&& now.def() == was.def()
                    &&& now.entry_set() == was.entry_set().difference(
                        entries_of(id, option_fields_view(old_fields), was.def()),
                    ).union(entries_of(id, option_fields_view(new_fields), was.def()))
                }),
    {
        let n = indexes.len();
        let mut i: usize = 0;
        while i < n
            invariant
                i <= n,
                n == old(indexes)@.len(),
                indexes@.len() == n,
                forall|j: int| i <= j < n ==> indexes@[j] == #[trigger] old(indexes)@[j],
                forall|j: int| 0 <= j < n ==> (#[trigger] old(indexes)@[j]).inv(),
                forall|j: int|
                    0 <= j < i ==> {
                        let was = #[trigger] old(indexes)@[j];
                        let now = indexes@[j];
                        &&& now.inv()
                        &&& now.def() == was.def()
                        &&& now.entry_set() == was.entry_set().difference(
                            entries_of(id, option_fields_view(old_fields), was.def()),
                        ).union(entries_of(id, option_fields_view(new_fields), was.def()))
                    },
            decreases n - i,
        {
            assert(old(indexes)@[i as int].inv());
            indexes[i].update_index(id, old_fields, new_fields);
            i = i + 1;
        }
        old_fields.is_some()
    }

    /// Stores the document under its identifier, in place of the one that
    /// was stored there, and brings every index up to date.
    fn put_raw(&mut self, doc: RawDocument) -> (r: Result<(), CollectionError>)
        requires
            old(self).inv(),
        ensures
            final(self).inv(),
            match doc.id {
                Some(id) => r is Ok && final(self)@ == old(self)@.put(id, doc@.fields),
                None => r == Err::<(), CollectionError>(CollectionError::MissingIdentifier) && final(self)@ == old(self)@,
            },
    {
        let id = match doc.req_id() {
            Ok(id) => id,
            Err(e) => {
                return Err(e);
            },
        };
        let ghost fv = doc@.fields;
        let prev = self.docs.put(id, doc.into_inner());
        self.touched.insert(id);
        let now = self.docs.get(id);
        let prev_ref = match &prev {
            Some(f) => Some(f),
            None => None,
        };
        Self::update_indexes(&mut self.indexes, id, prev_ref, now);
        proof {
            assert(index_defs(self.indexes@) =~= index_defs(old(self).indexes@));
            assert forall|i: int| 0 <= i < self.indexes@.len() implies (
            #[trigger] self.indexes@[i]).inv() && self.indexes@[i].entry_set() == derived_entries(
                self.docs@,
                self.indexes@[i].def(),
            ) by {
                let was = old(self).indexes@[i];
                assert(was.inv());
                lemma_derived_put(old(self).docs@, id, fv, was.def());
            }
            lemma_in_step_touch(old(self)@, self@, id);
        }
        Ok(())
    }

    /// Stores the document under its identifier, in place of the one that
    /// was stored there.
    pub fn put(&mut self, doc: RawDocument) -> (r: Result<(), CollectionError>)
        requires
            old(self).inv(),
        ensures
            final(self).inv(),
            match doc.id {
                Some(id) => r is Ok && final(self)@ == old(self)@.put(id, doc@.fields),
                None => r == Err::<(), CollectionError>(CollectionError::MissingIdentifier) && final(self)@ == old(self)@,
            },
    {
        self.put_raw(doc)
    }

    /// Stores the document under the identifier after the last one, and
    /// hands that identifier back.
    pub fn insert(&mut self, doc: RawDocument) -> (r: Result<Primary, CollectionError>)
        requires
            old(self).inv(),
            old(self)@.last_id() < u64::MAX,
        ensures
            final(self).inv(),
            r == Ok::<Primary, CollectionError>(old(self)@.new_id()),
            final(self)@ == old(self)@.insert(doc@.fields),
            forall|k: Primary| old(self)@.docs.contains_key(k) ==> k < old(self)@.new_id(),
    {
        let id = match self.new_id() {
            Ok(id) => id,
            Err(e) => {
                return Err(e);
            },
        };
        match self.put_raw(doc.with_id(id)) {
            Ok(()) => Ok(id),
            Err(e) => Err(e),
        }
    }

    /// Removes the document stored under `id`, if there is one, and says
    /// whether there was.
    pub fn delete(&mut self, id: Primary) -> (r: Result<bool, CollectionError>)
        requires
            old(self).inv(),
        ensures
            final(self).inv(),
            r == Ok::<bool, CollectionError>(old(self)@.docs.contains_key(id)),
            final(self)@ == old(self)@.delete(id),
            forall|i: int, k: KeyValue|
                0 <= i < final(self)@.indexes.len() ==> !(#[trigger] final(self).index_entries(
                    i,
                ).contains((k, id))),
    {
        let prev = self.docs.del_key(id);
        let status = match &prev {
            Some(fields) => {
                self.touched.insert(id);
                Self::update_indexes(&mut self.indexes, id, Some(fields), None)
            },
            None => false,
        };
        proof {
            assert(index_defs(self.indexes@) =~= index_defs(old(self).indexes@));
            assert forall|i: int| 0 <= i < self.indexes@.len() implies (
            #[trigger] self.indexes@[i]).inv() && self.indexes@[i].entry_set() == derived_entries(
                self.docs@,
                self.indexes@[i].def(),
            ) by {
                let was = old(self).indexes@[i];
                assert(was.inv());
                if prev is Some {
                    lemma_derived_delete(old(self).docs@, id, was.def());
                } else {
                    assert(old(self).docs@.remove(id) =~= old(self).docs@);
                }
            }
            if prev is Some {
                lemma_in_step_touch(old(self)@, self@, id);
            } else {
                assert(self.docs@ =~= old(self).docs@);
                lemma_in_step_same(old(self)@, self@);
            }
            assert forall|i: int, k: KeyValue| 0 <= i < self@.indexes.len() implies !(
            #[trigger] self.index_entries(i).contains((k, id))) by {
                assert(self.indexes@[i].inv());
                if self.index_entries(i).contains((k, id)) {
                    assert(self.indexes@[i].entry_set().contains((k, id)));
                }
            }
        }
        Ok(status)
    }

    /// Removes every document, from every index and from the primary map.
    pub fn purge(&mut self) -> (r: Result<(), CollectionError>)
        requires
            old(self).inv(),
        ensures
            final(self).inv(),
            r is Ok,
            final(self)@ == old(self)@.purge(),
    {
        self.clear_all();
        Ok(())
    }

    /// Removes every document and marks the collection for removal: once
    /// its last holder lets go of it, its persisted maps may go.
    pub fn to_delete(&mut self) -> (r: Result<(), CollectionError>)
        requires
            old(self).inv(),
        ensures
            final(self).inv(),
            r is Ok,
            final(self)@ == (CollectionView { deleted: true, ..old(self)@.purge() }),
    {
        self.clear_all();
        self.delete = true;
        Ok(())
    }

    /// Takes what is to be written to the backing store to bring it in
    /// step with the collection. The collection counts on its being
    /// written: from now on it keeps track of what changes after.
    pub fn take_changes(&mut self) -> (r: Changes)
        requires
            old(self).inv(),
        ensures
            final(self).inv(),
            r.cleared == old(self)@.cleared,
            r.touched@ == old(self)@.touched,
            final(self)@ == old(self)@.taken(),
    {
        let mut touched: HashSet<Primary> = HashSet::new();
        std::mem::swap(&mut self.touched, &mut touched);
        let cleared = self.cleared;
        self.cleared = false;
        self.stored = Ghost(self.docs@);
        Changes { cleared, touched }
    }

    fn clear_all(&mut self)
        requires
            old(self).inv(),
        ensures
            final(self).inv(),
            final(self)@ == old(self)@.purge(),
    {
        let n = self.indexes.len();
        let mut i: usize = 0;
        while i < n
            invariant
                i <= n,
                n == self.indexes@.len(),
                index_defs(self.indexes@) == index_defs(old(self).indexes@),
                self.name == old(self).name,
                self.db_name == old(self).db_name,
                self.delete == old(self).delete,
                self.stored == old(self).stored,
                forall|j: int| 0 <= j < i ==> (#[trigger] self.indexes@[j]).inv()
                    && self.indexes@[j].entries() == Seq::<(KeyValue, Primary)>::empty(),
            decreases n - i,
        {
            let ghost before = self.indexes@;
            self.indexes[i].purge();
            assert(index_defs(self.indexes@) =~= index_defs(before));
            i = i + 1;
        }
        self.docs.clear();
        self.touched.clear();
        self.cleared = true;
        proof {
            assert forall|j: int| 0 <= j < n implies (#[trigger] self.indexes@[j]).entry_set()
                == derived_entries(self.docs@, self.indexes@[j].def()) by {
                assert(self.indexes@[j].entries() == Seq::<(KeyValue, Primary)>::empty());
                assert(self.indexes@[j].entry_set() =~= derived_entries(
                    self.docs@,
                    self.indexes@[j].def(),
                ));
            }
        }
    }
}

/// A map of documents has one last identifier.
pub proof fn lemma_last_id_unique(docs: Map<Primary, Seq<FieldValue>>, a: Primary, b: Primary)
    requires
        is_last_id(docs, a),
    ensures
        is_last_id(docs, b) ==> a == b,
        is_last_id(docs, choose|id: Primary| is_last_id(docs, id)),
        a == (choose|id: Primary| is_last_id(docs, id)),
{
    let c = choose|id: Primary| is_last_id(docs, id);
    assert(is_last_id(docs, c));
    if docs.contains_key(a) {
        assert(docs.dom().contains(a));
    }
    if docs.contains_key(c) {
        assert(docs.dom().contains(c));
    }
    if is_last_id(docs, b) && docs.contains_key(b) {
        assert(docs.dom().contains(b));
    }
}

} // verus!
