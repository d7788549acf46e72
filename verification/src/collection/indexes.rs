//! The indexes of a collection: looking them up, creating them from the
//! stored documents, dropping them.

use vstd::prelude::*;

use crate::collection::Collection;
use crate::collection::index_defs;
use crate::document::Document;
use crate::document::doc_keys;
use crate::document::FieldValue;
use crate::index::entries_of;
use crate::index::Index;
use crate::key::KeyValue;
use crate::primary::represents;
use crate::types::CollectionError;
use crate::types::IndexDef;
use crate::types::IndexDefValue;
use crate::types::IndexKind;
use crate::types::is_missing_index;
use crate::types::KeyField;
use crate::types::KeyFields;
use crate::types::KeyFieldValue;
use crate::types::KeyType;
use crate::types::key_fields_view;
use crate::types::Primary;
use crate::types::Serial;
use crate::types::Storage;
use crate::view::derived_entries;
use crate::view::first_index;
use crate::view::has_index;
use crate::view::is_first_index;
use crate::view::is_index_content;
use crate::view::lemma_in_step_same;

verus! {

/// The entries that the first `n` documents of a primary map give to an
/// index with the definition `def`.
pub open spec fn backfilled(
    keys: Seq<Primary>,
    values: Seq<Seq<FieldValue>>,
    n: int,
    def: IndexDefValue,
) -> Set<(KeyValue, Primary)> {
    Set::new(
        |e: (KeyValue, Primary)|
            exists|j: int|
                0 <= j < n && #[trigger] keys[j] == e.1 && doc_keys(
                    values[j],
                    def.path,
                    def.key,
                ).contains(e.0),
    )
}

proof fn lemma_backfill_step(
    keys: Seq<Primary>,
    values: Seq<Seq<FieldValue>>,
    n: int,
    def: IndexDefValue,
)
    requires
        0 <= n < keys.len(),
    ensures
        backfilled(keys, values, n + 1, def) == backfilled(keys, values, n, def).difference(
            entries_of(keys[n], None, def),
        ).union(entries_of(keys[n], Some(values[n]), def)),
{
    let more = backfilled(keys, values, n + 1, def);
    let target = backfilled(keys, values, n, def).difference(
        entries_of(keys[n], None, def),
    ).union(entries_of(keys[n], Some(values[n]), def));
    assert forall|e: (KeyValue, Primary)| more.contains(e) == target.contains(e) by {
        if more.contains(e) {
            let j = choose|j: int|
                0 <= j < n + 1 && #[trigger] keys[j] == e.1 && doc_keys(
                    values[j],
                    def.path,
                    def.key,
                ).contains(e.0);
            if j < n {
                assert(backfilled(keys, values, n, def).contains(e));
            }
        }
        if backfilled(keys, values, n, def).contains(e) {
            let j = choose|j: int|
                0 <= j < n && #[trigger] keys[j] == e.1 && doc_keys(
                    values[j],
                    def.path,
                    def.key,
                ).contains(e.0);
            assert(0 <= j < n + 1 && keys[j] == e.1);
        }
        if entries_of(keys[n], Some(values[n]), def).contains(e) {
            assert(0 <= n < n + 1 && keys[n] == e.1);
        }
    }
    assert(more =~= target);
}

proof fn lemma_backfill_done(
    keys: Seq<Primary>,
    values: Seq<Seq<FieldValue>>,
    docs: Map<Primary, Seq<FieldValue>>,
    def: IndexDefValue,
)
    requires
        represents(keys, values, docs),
    ensures
        backfilled(keys, values, keys.len() as int, def) == derived_entries(docs, def),
{
    let all = backfilled(keys, values, keys.len() as int, def);
    assert forall|e: (KeyValue, Primary)| all.contains(e) == derived_entries(
        docs,
        def,
    ).contains(e) by {
        if all.contains(e) {
            let j = choose|j: int|
                0 <= j < keys.len() && #[trigger] keys[j] == e.1 && doc_keys(
                    values[j],
                    def.path,
                    def.key,
                ).contains(e.0);
            assert(keys.to_set().contains(keys[j]));
            assert(docs[keys[j]] == values[j]);
        }
        if derived_entries(docs, def).contains(e) {
            assert(keys.to_set().contains(e.1));
            let j = choose|j: int| 0 <= j < keys.len() && keys[j] == e.1;
            assert(docs[keys[j]] == values[j]);
        }
    }
    assert(all =~= derived_entries(docs, def));
}

/// The first index on a path is one index, and it is there.
pub proof fn lemma_first_index(defs: Seq<IndexDefValue>, path: Seq<char>, i: int)
    requires
        is_first_index(defs, path, i),
    ensures
        has_index(defs, path),
        first_index(defs, path) == i,
{
    let c = first_index(defs, path);
    assert(is_first_index(defs, path, c));
    if c < i {
        assert(defs[c].path != path);
    }
    if i < c {
        assert(defs[i].path != path);
    }
}

impl Collection {
    /// The position of the first index that covers `path`.
    fn index_position(&self, path: &str) -> (r: Option<usize>)
        ensures
            match r {
                Some(i) => is_first_index(self@.indexes, path@, i as int),
                None => !self@.has_index(path@),
            },
    {
        let wanted = path.to_owned();
        let n = self.indexes.len();
        let mut i: usize = 0;
        while i < n
            invariant
                i <= n,
                n == self.indexes@.len(),
                wanted@ == path@,
                forall|j: int| 0 <= j < i ==> (#[trigger] self@.indexes[j]).path != path@,
            decreases n - i,
        {
            if *self.indexes[i].path() == wanted {
                return Some(i);
            }
            i = i + 1;
        }
        None
    }

    /// Whether an index covers the field path.
    pub fn has_index(&self, path: &str) -> (r: Result<bool, CollectionError>)
        ensures
            r == Ok::<bool, CollectionError>(self@.has_index(path@)),
    {
        match self.index_position(path) {
            Some(i) => {
                proof {
                    lemma_first_index(self@.indexes, path@, i as int);
                }
                Ok(true)
            },
            None => Ok(false),
        }
    }

    /// The first index that covers the field path, if there is one.
    pub fn get_index(&self, path: &str) -> (r: Result<Option<&Index>, CollectionError>)
        requires
            self.inv(),
        ensures
            r is Ok,
            match r->Ok_0 {
                Some(index) => self@.has_index(path@) && index.inv() && index.def()
                    == self@.index_def(path@) && index.def().path == path@ && is_index_content(
                    index.entries(),
                    self@.docs,
                    index.def(),
                ),
                None => !self@.has_index(path@),
            },
    {
        match self.index_position(path) {
            Some(i) => {
                proof {
                    lemma_first_index(self@.indexes, path@, i as int);
                    self.lemma_consistent();
                    assert(is_index_content(self.index_entries(i as int), self@.docs, self@.indexes[i as int]));
                }
                Ok(Some(&self.indexes[i]))
            },
            None => Ok(None),
        }
    }

    /// The first index that covers the field path, which must exist.
    pub fn req_index(&self, path: &str) -> (r: Result<&Index, CollectionError>)
        requires
            self.inv(),
        ensures
            match r {
                Ok(index) => self@.has_index(path@) && index.inv() && index.def()
                    == self@.index_def(path@) && index.def().path == path@ && is_index_content(
                    index.entries(),
                    self@.docs,
                    index.def(),
                ),
                Err(e) => !self@.has_index(path@) && is_missing_index(e, path@),
            },
    {
        match self.get_index(path) {
            Ok(Some(index)) => Ok(index),
            Ok(None) => Err(CollectionError::MissingIndex(path.to_owned())),
            Err(e) => Err(e),
        }
    }

    /// What each index says of itself, in the order of the indexes.
    pub fn get_indexes(&self) -> (r: Result<KeyFields, CollectionError>)
        ensures
            r is Ok,
            key_fields_view(r->Ok_0@) == self@.indexes.map_values(|d: IndexDefValue| d.field()),
    {
        let n = self.indexes.len();
        let mut out: Vec<KeyField> = Vec::new();
        let mut i: usize = 0;
        while i < n
            invariant
                i <= n,
                n == self.indexes@.len(),
                out@.len() == i,
                forall|j: int| 0 <= j < i ==> (#[trigger] out@[j])@ == self@.indexes[j].field(),
            decreases n - i,
        {
            out.push(self.indexes[i].field());
            i = i + 1;
        }
        assert(key_fields_view(out@) =~= self@.indexes.map_values(|d: IndexDefValue| d.field()));
        Ok(out)
    }

    /// Creates an index on `path` and fills it from the stored documents,
    /// in the order of their identifiers, unless an index covers `path`
    /// already. Says whether it created one.
    pub fn create_index(
        &mut self,
        storage: &mut Storage,
        path: &str,
        kind: IndexKind,
        key: KeyType,
    ) -> (r: Result<bool, CollectionError>)
        requires
            old(self).inv(),
            old(storage).last_serial() < u64::MAX,
        ensures
            final(self).inv(),
            r == Ok::<bool, CollectionError>(!old(self)@.has_index(path@)),
            final(self)@ == old(self)@.create_index(
                (old(storage).last_serial() + 1) as Serial,
                path@,
                kind,
                key,
            ),
            final(storage).last_serial() == if old(self)@.has_index(path@) {
                old(storage).last_serial()
            } else {
                (old(storage).last_serial() + 1) as Serial
            },
    {
        match self.index_position(path) {
            Some(i) => {
                proof {
                    lemma_first_index(self@.indexes, path@, i as int);
                }
                return Ok(false);
            },
            None => {},
        }
        let def = storage.enumerate(IndexDef::new(self.name.as_str(), path, kind, key));
        let ghost dv = def@;
        let mut index = Index::new(def);
        let n = self.docs.len();
        let mut pos: usize = 0;
        proof {
            self.docs.lemma_keys();
            assert(backfilled(self.docs.keys(), self.docs.values(), 0, dv) =~= Set::<
                (KeyValue, Primary),
            >::empty());
            assert(index.entry_set() =~= Set::<(KeyValue, Primary)>::empty());
        }
        while pos < n
            invariant
                pos <= n,
                n == self.docs.keys().len(),
                self.docs.inv(),
                index.inv(),
                index.def() == dv,
                represents(self.docs.keys(), self.docs.values(), self.docs@),
                index.entry_set() == backfilled(
                    self.docs.keys(),
                    self.docs.values(),
                    pos as int,
                    dv,
                ),
            decreases n - pos,
        {
            let id = self.docs.key_at(pos);
            let fields = self.docs.value_at(pos);
            index.update_index(id, None, Some(fields));
            proof {
                lemma_backfill_step(self.docs.keys(), self.docs.values(), pos as int, dv);
            }
            pos = pos + 1;
        }
        proof {
            lemma_backfill_done(self.docs.keys(), self.docs.values(), self.docs@, dv);
        }
        self.indexes.push(index);
        proof {
            assert(index_defs(self.indexes@) =~= index_defs(old(self).indexes@).push(dv));
            assert forall|i: int| 0 <= i < self.indexes@.len() implies (
            #[trigger] self.indexes@[i]).inv() && self.indexes@[i].entry_set() == derived_entries(
                self.docs@,
                self.indexes@[i].def(),
            ) by {
                if i < old(self).indexes@.len() {
                    assert(self.indexes@[i] == old(self).indexes@[i]);
                    assert(old(self).indexes@[i].inv());
                }
            }
            lemma_in_step_same(old(self)@, self@);
        }
        Ok(true)
    }

    /// Removes the first index that covers `path`, if there is one, and
    /// says whether there was.
    pub fn drop_index(&mut self, path: &str) -> (r: Result<bool, CollectionError>)
        requires
            old(self).inv(),
        ensures
            final(self).inv(),
            r == Ok::<bool, CollectionError>(old(self)@.has_index(path@)),
            final(self)@ == old(self)@.drop_index(path@),
    {
        match self.index_position(path) {
            Some(i) => {
                proof {
                    lemma_first_index(self@.indexes, path@, i as int);
                }
                self.indexes.remove(i);
                proof {
                    assert(index_defs(self.indexes@) =~= index_defs(old(self).indexes@).remove(
                        i as int,
                    ));
                    assert forall|j: int| 0 <= j < self.indexes@.len() implies (
                    #[trigger] self.indexes@[j]).inv() && self.indexes@[j].entry_set()
                        == derived_entries(self.docs@, self.indexes@[j].def()) by {
                        let oj = if j < i { j } else { j + 1 };
                        assert(self.indexes@[j] == old(self).indexes@[oj]);
                        assert(old(self).indexes@[oj].inv());
                    }
                    lemma_in_step_same(old(self)@, self@);
                }
                Ok(true)
            },
            None => Ok(false),
        }
    }

    /// Sees to it that the first index on `path` has this kind and this
    /// key type: where it has, nothing happens; where it has not, it is
    /// dropped and a new index is created and filled. Says whether an
    /// index was created.
    pub fn ensure_index(
        &mut self,
        storage: &mut Storage,
        path: &str,
        kind: IndexKind,
        key: KeyType,
    ) -> (r: Result<bool, CollectionError>)
        requires
            old(self).inv(),
            old(storage).last_serial() < u64::MAX,
        ensures
            final(self).inv(),
            r == Ok::<bool, CollectionError>(old(self)@.ensure_creates(path@, kind, key)),
            final(self)@ == old(self)@.ensure_index(
                (old(storage).last_serial() + 1) as Serial,
                path@,
                kind,
                key,
            ),
            final(storage).last_serial() == if old(self)@.ensure_creates(path@, kind, key) {
                (old(storage).last_serial() + 1) as Serial
            } else {
                old(storage).last_serial()
            },
    {
        let agrees = match self.get_index(path) {
            Ok(Some(index)) => Some(index.kind() == kind && index.key() == key),
            Ok(None) => None,
            Err(e) => {
                return Err(e);
            },
        };
        match agrees {
            Some(true) => {
                return Ok(false);
            },
            Some(false) => {
                match self.drop_index(path) {
                    Ok(_) => {},
                    Err(e) => {
                        return Err(e);
                    },
                }
            },
            None => {},
        }
        self.create_index(storage, path, kind, key)
    }

    /// Ensures an index for each of `indexes`, in turn. An index that
    /// `indexes` does not mention stays.
    pub fn set_indexes(&mut self, storage: &mut Storage, indexes: &Vec<KeyField>) -> (r: Result<
        (),
        CollectionError,
    >)
        requires
            old(self).inv(),
            old(storage).last_serial() + indexes@.len() <= u64::MAX,
        ensures
            final(self).inv(),
            r is Ok,
            final(self)@ == old(self)@.ensure_all(
                old(storage).last_serial() as int,
                key_fields_view(indexes@),
            ).0,
            final(storage).last_serial() == old(self)@.ensure_all(
                old(storage).last_serial() as int,
                key_fields_view(indexes@),
            ).1,
    {
        let ghost start = old(self)@;
        let ghost last = old(storage).last_serial() as int;
        let ghost fields = key_fields_view(indexes@);
        let n = indexes.len();
        let mut i: usize = 0;
        proof {
            assert(fields.take(0) =~= Seq::<KeyFieldValue>::empty());
        }
        while i < n
            invariant
                i <= n,
                n == indexes@.len(),
                fields == key_fields_view(indexes@),
                self.inv(),
                last + n <= u64::MAX,
                storage.last_serial() <= last + i,
                self@ == start.ensure_all(last, fields.take(i as int)).0,
                storage.last_serial() == start.ensure_all(last, fields.take(i as int)).1,
            decreases n - i,
        {
            let field = &indexes[i];
            proof {
                assert(fields.take(i + 1).drop_last() =~= fields.take(i as int));
                assert(fields.take(i + 1).last() == field@);
            }
            match self.ensure_index(storage, field.path.as_str(), field.kind, field.key) {
                Ok(_) => {},
                Err(e) => {
                    return Err(e);
                },
            }
            i = i + 1;
        }
        proof {
            assert(fields.take(n as int) =~= fields);
        }
        Ok(())
    }

    /// Ensures the indexes that the document type `T` asks for, as
    /// [`Self::set_indexes`] does for a given list. Where the enumerator
    /// has not a serial left for each of them, nothing is done.
    pub fn index<T: Document>(&mut self, storage: &mut Storage) -> (r: Result<
        (),
        CollectionError,
    >)
        requires
            old(self).inv(),
        ensures
            final(self).inv(),
            match r {
                Ok(()) => exists|fields: Seq<KeyFieldValue>|
                    ({
                        &&& old(storage).last_serial() + fields.len() <= u64::MAX
                        &&& final(self)@ == (#[trigger] old(self)@.ensure_all(
                            old(storage).last_serial() as int,
                            fields,
                        )).0
                        &&& final(storage).last_serial() == old(self)@.ensure_all(
                            old(storage).last_serial() as int,
                            fields,
                        ).1
                    }),
                Err(e) => e == CollectionError::Storage && final(self)@ == old(self)@ && final(storage).last_serial() == old(storage).last_serial(),
            },
    {
        let fields = T::key_fields();
        if !storage.room_for(fields.len()) {
            return Err(CollectionError::Storage);
        }
        self.set_indexes(storage, &fields)
    }
}

} // verus!
