//! Operations on many documents: update, remove, load.

use vstd::prelude::*;
use vstd::std_specs::iter::IteratorSpec;

use crate::collection::Collection;
use crate::collection::query::docs_view;
use crate::document::clone_fields;
use crate::document::FieldValue;
use crate::document::Modify;
use crate::document::RawDocument;
use crate::filter::Filter;
use crate::types::CollectionError;
use crate::types::is_missing_index;
use crate::types::Primary;
use crate::view::all_identified;
use crate::view::CollectionView;
use crate::view::loaded;
use crate::view::primaries;

verus! {

/// The identifiers among the first `n` of a walk over a set.
pub open spec fn seen(walk: Seq<&Primary>, n: int) -> Set<Primary> {
    Set::new(|id: Primary| exists|j: int| 0 <= j < n && *(#[trigger] walk[j]) == id)
}

/// The documents `docs` after the change `modify` was applied to those
/// with an identifier in `done`.
pub open spec fn updated_docs(
    docs: Map<Primary, Seq<FieldValue>>,
    done: Set<Primary>,
    modify: Modify,
) -> Map<Primary, Seq<FieldValue>> {
    Map::new(
        |id: Primary| docs.contains_key(id),
        |id: Primary|
            if done.contains(id) {
                modify.applied(docs[id])
            } else {
                docs[id]
            },
    )
}

proof fn lemma_seen_all(walk: Seq<&Primary>, set: Set<Primary>)
    requires
        walk.unref().to_set() == set,
    ensures
        seen(walk, walk.len() as int) == set,
        seen(walk, 0) == Set::<Primary>::empty(),
{
    let all = seen(walk, walk.len() as int);
    assert forall|id: Primary| all.contains(id) == set.contains(id) by {
        if all.contains(id) {
            let j = choose|j: int| 0 <= j < walk.len() && *(#[trigger] walk[j]) == id;
            assert(walk.unref()[j] == id);
            assert(walk.unref().to_set().contains(id));
        }
        if set.contains(id) {
            assert(walk.unref().contains(id));
            let j = choose|j: int| 0 <= j < walk.unref().len() && walk.unref()[j] == id;
            assert(*walk[j] == id);
        }
    }
    assert(all =~= set);
    assert(seen(walk, 0) =~= Set::<Primary>::empty());
}

proof fn lemma_seen_step(walk: Seq<&Primary>, n: int)
    requires
        0 <= n < walk.len(),
        walk.no_duplicates(),
    ensures
        seen(walk, n + 1) == seen(walk, n).insert(*walk[n]),
        !seen(walk, n).contains(*walk[n]),
{
    assert forall|id: Primary| seen(walk, n + 1).contains(id) == seen(walk, n).insert(
        *walk[n],
    ).contains(id) by {
        if seen(walk, n + 1).contains(id) {
            let j = choose|j: int| 0 <= j < n + 1 && *(#[trigger] walk[j]) == id;
            if j < n {
                assert(seen(walk, n).contains(id));
            }
        }
        if seen(walk, n).contains(id) {
            let j = choose|j: int| 0 <= j < n && *(#[trigger] walk[j]) == id;
            assert(0 <= j < n + 1);
        }
        if id == *walk[n] {
            assert(0 <= n < n + 1 && *walk[n] == id);
        }
    }
    assert(seen(walk, n + 1) =~= seen(walk, n).insert(*walk[n]));
    if seen(walk, n).contains(*walk[n]) {
        let j = choose|j: int| 0 <= j < n && *(#[trigger] walk[j]) == *walk[n];
        assert(walk[j] == walk[n]);
    }
}

impl Collection {
    /// Applies the change `modify` to each document that meets the
    /// filter, to all documents where there is none, and says to how
    /// many. The documents are chosen first and changed then.
    pub fn update(&mut self, filter: Option<Filter>, modify: Modify) -> (r: Result<
        usize,
        CollectionError,
    >)
        requires
            old(self).inv(),
        ensures
            final(self).inv(),
            match r {
                Ok(count) => {
                    &&& old(self)@.missing_index(filter, None) is None
                    &&& count == old(self)@.find_ids(filter).len()
                    &&& final(self)@ == old(self)@.update(filter, modify)
                },
                Err(e) => {
                    &&& old(self)@.missing_index(filter, None) is Some
                    &&& is_missing_index(e, old(self)@.missing_index(filter, None)->0)
                    &&& final(self)@ == old(self)@
                },
            },
    {
        let ghost start = self@;
        let ghost chosen = self@.find_ids(filter);
        let found_ids = match self.find_ids(filter) {
            Ok(ids) => ids,
            Err(e) => {
                return Err(e);
            },
        };
        let total = found_ids.len();
        let mut count: usize = 0;
        proof {
            lemma_seen_all(found_ids.iter().remaining(), found_ids@);
            assert(self@.docs =~= updated_docs(start.docs, Set::empty(), modify));
        }
        for id in it: found_ids.iter()
            invariant
                self.inv(),
                it.seq() == found_ids.iter().remaining(),
                it.seq().len() == total,
                found_ids@ == chosen,
                chosen == start.find_ids(filter),
                count == it.index(),
                self@ == (CollectionView { docs: self@.docs, touched: self@.touched, ..start }),
                self@.docs == updated_docs(start.docs, seen(it.seq(), it.index() as int), modify),
                self@.touched == start.touched.union(seen(it.seq(), it.index() as int)),
        {
            let ghost n = it.index() as int;
            let ghost before = self@.docs;
            proof {
                lemma_seen_step(it.seq(), n);
                lemma_seen_all(it.seq(), found_ids@);
                assert(it.seq().unref()[n] == *id);
                assert(it.seq().unref().to_set().contains(*id));
                assert(start.docs.contains_key(*id));
            }
            let changed = match self.docs.get(*id) {
                Some(fields) => modify.apply(clone_fields(fields)),
                None => {
                    return Err(CollectionError::Storage);
                },
            };
            match self.put_raw(RawDocument { id: Some(*id), fields: changed }) {
                Ok(()) => {},
                Err(e) => {
                    return Err(e);
                },
            }
            count = count + 1;
            proof {
                assert(self@.docs =~= updated_docs(start.docs, seen(it.seq(), n + 1), modify));
            }
        }
        proof {
            lemma_seen_all(found_ids.iter().remaining(), found_ids@);
            assert(self@.docs =~= start.update(filter, modify).docs);
        }
        Ok(count)
    }

    /// Removes each document that meets the filter, all documents where
    /// there is none, and says how many. The documents are chosen first
    /// and removed then.
    pub fn remove(&mut self, filter: Option<Filter>) -> (r: Result<usize, CollectionError>)
        requires
            old(self).inv(),
        ensures
            final(self).inv(),
            match r {
                Ok(count) => {
                    &&& old(self)@.missing_index(filter, None) is None
                    &&& count == old(self)@.find_ids(filter).len()
                    &&& final(self)@ == old(self)@.remove(filter)
                },
                Err(e) => {
                    &&& old(self)@.missing_index(filter, None) is Some
                    &&& is_missing_index(e, old(self)@.missing_index(filter, None)->0)
                    &&& final(self)@ == old(self)@
                },
            },
    {
        let ghost start = self@;
        let ghost chosen = self@.find_ids(filter);
        let found_ids = match self.find_ids(filter) {
            Ok(ids) => ids,
            Err(e) => {
                return Err(e);
            },
        };
        let total = found_ids.len();
        let mut count: usize = 0;
        proof {
            lemma_seen_all(found_ids.iter().remaining(), found_ids@);
            assert(self@.docs =~= start.docs.remove_keys(Set::empty()));
        }
        for id in it: found_ids.iter()
            invariant
                self.inv(),
                it.seq() == found_ids.iter().remaining(),
                it.seq().len() == total,
                found_ids@ == chosen,
                chosen == start.find_ids(filter),
                count == it.index(),
                self@ == (CollectionView { docs: self@.docs, touched: self@.touched, ..start }),
                self@.docs == start.docs.remove_keys(seen(it.seq(), it.index() as int)),
                self@.touched == start.touched.union(seen(it.seq(), it.index() as int)),
        {
            let ghost n = it.index() as int;
            proof {
                lemma_seen_step(it.seq(), n);
                lemma_seen_all(it.seq(), found_ids@);
                assert(it.seq().unref()[n] == *id);
                assert(it.seq().unref().to_set().contains(*id));
                assert(start.docs.contains_key(*id));
                assert(self@.docs.contains_key(*id));
            }
            match self.delete(*id) {
                Ok(_) => {},
                Err(e) => {
                    return Err(e);
                },
            }
            count = count + 1;
            proof {
                assert(self@.docs =~= start.docs.remove_keys(seen(it.seq(), n + 1)));
            }
        }
        proof {
            lemma_seen_all(found_ids.iter().remaining(), found_ids@);
        }
        Ok(count)
    }

    /// Replaces the documents of the collection by `docs`, each of which
    /// must carry its identifier, and says how many were given. Where
    /// one carries none, the collection is left without documents.
    pub fn load(&mut self, docs: Vec<RawDocument>) -> (r: Result<usize, CollectionError>)
        requires
            old(self).inv(),
        ensures
            final(self).inv(),
            final(self)@ == old(self)@.load(docs_view(docs@)),
            match r {
                Ok(count) => all_identified(docs_view(docs@)) && count == docs@.len(),
                Err(e) => !all_identified(docs_view(docs@)) && e
                    == CollectionError::MissingIdentifier,
            },
    {
        self.clear_all();
        let ghost start = self@;
        let ghost given = docs_view(docs@);
        let n = docs.len();
        let mut i: usize = 0;
        while i < n
            invariant
                i <= n,
                n == docs@.len(),
                given == docs_view(docs@),
                self.inv(),
                self@ == start,
                start == old(self)@.purge(),
                forall|j: int| 0 <= j < i ==> (#[trigger] given[j]).id is Some,
            decreases n - i,
        {
            if !docs[i].has_id() {
                assert(given[i as int].id is None);
                return Err(CollectionError::MissingIdentifier);
            }
            i = i + 1;
        }
        let mut count: usize = 0;
        for doc in it: docs
            invariant
                self.inv(),
                it.seq() == docs@,
                n == docs@.len(),
                given == docs_view(docs@),
                all_identified(given),
                count == it.index(),
                self@ == (CollectionView { docs: self@.docs, touched: self@.touched, ..start }),
                self@.docs == loaded(given.take(it.index() as int)),
                self@.touched == primaries(given.take(it.index() as int)),
        {
            let ghost k = it.index() as int;
            proof {
                assert(given.take(k + 1).drop_last() =~= given.take(k));
                assert(given.take(k + 1).last() == doc@);
                assert(given[k].id is Some);
            }
            match self.put_raw(doc) {
                Ok(()) => {},
                Err(e) => {
                    return Err(e);
                },
            }
            count = count + 1;
        }
        proof {
            assert(given.take(given.len() as int) =~= given);
        }
        Ok(count)
    }
}

} // verus!
