//! Queries: which documents a filter finds, and in what order.

use std::collections::HashSet;
use vstd::prelude::*;
use vstd::std_specs::iter::IteratorSpec;

use crate::collection::Collection;
use crate::document::DocValue;
use crate::document::RawDocument;
use crate::filter::Filter;
use crate::filter::lemma_filter_agree;
use crate::filter::lemma_filter_all;
use crate::filter::lemma_filter_order;
use crate::filter::Selection;
use crate::index::entry_ids;
use crate::order::sorted_ids;
use crate::primary::lemma_increasing;
use crate::primary::PrimaryIterator;
use crate::types::CollectionError;
use crate::types::is_missing_index;
use crate::types::Order;
use crate::types::OrderKind;
use crate::types::Primary;
use crate::view::is_index_content;
use crate::view::order_path;

verus! {

/// The mathematical values of a list of documents.
pub open spec fn docs_view(docs: Seq<RawDocument>) -> Seq<DocValue> {
    docs.map_values(|d: RawDocument| d@)
}

/// The documents that a query found, fetched one by one.
///
/// Each document is fetched from the collection as it stands when it is
/// asked for, not as it stood when the query ran.
pub struct DocumentsIterator {
    ids: Vec<Primary>,
    pos: usize,
}

impl DocumentsIterator {
    /// The iterator is well formed.
    pub closed spec fn inv(&self) -> bool {
        self.pos <= self.ids@.len()
    }

    /// The identifiers of the documents that are yet to be fetched.
    pub closed spec fn remaining(&self) -> Seq<Primary> {
        self.ids@.subrange(self.pos as int, self.ids@.len() as int)
    }

    /// An iterator over the documents with the identifiers `ids`.
    pub fn new(ids: Vec<Primary>) -> (r: Self)
        ensures
            r.inv(),
            r.remaining() == ids@,
    {
        let r = DocumentsIterator { ids, pos: 0 };
        assert(r.remaining() =~= ids@);
        r
    }

    /// Fetches the next document from `coll`. Where the collection no
    /// longer holds it, the iterator yields an error and ends.
    pub fn next(&mut self, coll: &Collection) -> (r: Option<Result<RawDocument, CollectionError>>)
        requires
            old(self).inv(),
            coll.inv(),
        ensures
            final(self).inv(),
            old(self).remaining().len() == 0 ==> r is None && final(self).remaining().len() == 0,
            old(self).remaining().len() > 0 ==> match r {
                Some(Ok(doc)) => {
                    let id = old(self).remaining()[0];
                    &&& coll@.docs.contains_key(id)
                    &&& doc@ == (DocValue { id: Some(id), fields: coll@.docs[id] })
                    &&& final(self).remaining() == old(self).remaining().drop_first()
                },
                Some(Err(e)) => {
                    &&& !coll@.docs.contains_key(old(self).remaining()[0])
                    &&& e == CollectionError::Storage
                    &&& final(self).remaining().len() == 0
                },
                None => false,
            },
    {
        if self.pos >= self.ids.len() {
            return None;
        }
        let id = self.ids[self.pos];
        match coll.get(id) {
            Ok(Some(doc)) => {
                self.pos = self.pos + 1;
                assert(self.remaining() =~= old(self).remaining().drop_first());
                Some(Ok(doc))
            },
            Ok(None) => {
                self.pos = self.ids.len();
                Some(Err(CollectionError::Storage))
            },
            Err(e) => {
                self.pos = self.ids.len();
                Some(Err(e))
            },
        }
    }

    /// The bounds on the number of documents that are yet to be fetched:
    /// both are that number.
    pub fn size_hint(&self) -> (r: (usize, Option<usize>))
        requires
            self.inv(),
        ensures
            r.0 == self.remaining().len(),
            r.1 == Some(r.0),
    {
        let n = self.ids.len() - self.pos;
        (n, Some(n))
    }

    /// The number of documents that are yet to be fetched.
    pub fn len(&self) -> (r: usize)
        requires
            self.inv(),
        ensures
            r == self.remaining().len(),
    {
        self.ids.len() - self.pos
    }
}

impl Collection {
    /// The identifiers of the documents that meet the filter; of all
    /// documents where there is no filter.
    pub fn find_ids(&self, filter: Option<Filter>) -> (r: Result<HashSet<Primary>, CollectionError>)
        requires
            self.inv(),
        ensures
            match r {
                Ok(ids) => self@.missing_index(filter, None) is None && ids@ == self@.find_ids(
                    filter,
                ),
                Err(e) => self@.missing_index(filter, None) is Some && is_missing_index(
                    e,
                    self@.missing_index(filter, None)->0,
                ),
            },
    {
        let sel = match &filter {
            Some(f) => match f.apply(self) {
                Ok(sel) => sel,
                Err(e) => {
                    return Err(e);
                },
            },
            None => Selection { ids: HashSet::new(), inv: true },
        };
        let ghost docs = self@.docs;
        proof {
            self.docs.lemma_keys();
            assert forall|id: Primary| docs.contains_key(id) implies sel.admits(id)
                == self@.find_ids(filter).contains(id) by {
                if let Some(f) = filter {
                    f.lemma_selection(docs, self@.index_def(f.path()).key, id);
                }
            }
        }
        if !sel.inv {
            proof {
                let f = filter->0;
                assert forall|id: Primary| sel.ids@.contains(id) == self@.find_ids(
                    filter,
                ).contains(id) by {
                    f.lemma_selection(docs, self@.index_def(f.path()).key, id);
                    if docs.contains_key(id) {
                        assert(sel.admits(id) == self@.find_ids(filter).contains(id));
                    }
                }
                assert(sel.ids@ =~= self@.find_ids(filter));
            }
            return Ok(sel.ids);
        }
        let all = PrimaryIterator::new(&self.docs, OrderKind::default()).collect();
        let mut out: HashSet<Primary> = HashSet::new();
        let n = all.len();
        let mut i: usize = 0;
        while i < n
            invariant
                i <= n,
                n == all@.len(),
                out@ == Set::new(
                    |id: Primary| exists|j: int| 0 <= j < i && all@[j] == id && sel.admits(id),
                ),
            decreases n - i,
        {
            if sel.has(all[i]) {
                out.insert(all[i]);
            }
            assert(out@ =~= Set::new(
                |id: Primary| exists|j: int| 0 <= j < i + 1 && all@[j] == id && sel.admits(id),
            ));
            i = i + 1;
        }
        proof {
            assert(all@ == self.docs.keys());
            assert forall|id: Primary| out@.contains(id) == self@.find_ids(filter).contains(
                id,
            ) by {
                if out@.contains(id) {
                    let j = choose|j: int| 0 <= j < n && all@[j] == id && sel.admits(id);
                    assert(all@.to_set().contains(all@[j]));
                }
                if self@.find_ids(filter).contains(id) {
                    assert(docs.contains_key(id));
                    assert(all@.to_set().contains(id));
                    let j = choose|j: int| 0 <= j < all@.len() && all@[j] == id;
                    assert(0 <= j < n && all@[j] == id && sel.admits(id));
                }
            }
            assert(out@ =~= self@.find_ids(filter));
        }
        Ok(out)
    }

    /// The identifiers of the documents that a query finds, in the order
    /// of the query.
    fn find_order(&self, filter: &Option<Filter>, order: &Order) -> (r: Result<
        Vec<Primary>,
        CollectionError,
    >)
        requires
            self.inv(),
        ensures
            match r {
                Ok(ids) => {
                    &&& self@.missing_index(*filter, order_path(*order)) is None
                    &&& self@.found(*filter, *order, ids@)
                    &&& forall|i: int| 0 <= i < ids@.len() ==> self@.docs.contains_key(#[trigger] ids@[i])
                },
                Err(e) => self@.missing_index(*filter, order_path(*order)) is Some
                    && is_missing_index(e, self@.missing_index(*filter, order_path(*order))->0),
            },
    {
        let ghost docs = self@.docs;
        let ghost wanted = self@.find_ids(*filter);
        let ghost keep = |id: Primary| wanted.contains(id);
        let sel = match filter {
            Some(f) => match f.apply(self) {
                Ok(sel) => Some(sel),
                Err(e) => {
                    return Err(e);
                },
            },
            None => None,
        };
        proof {
            self.docs.lemma_keys();
            lemma_increasing(self.docs.keys());
            assert forall|id: Primary| wanted.contains(id) implies docs.contains_key(id) by {}
            assert forall|id: Primary| docs.contains_key(id) implies (sel matches Some(s) ==> s.admits(id) == wanted.contains(id)) by {
                if let Some(f) = *filter {
                    f.lemma_selection(docs, self@.index_def(f.path()).key, id);
                }
            }
        }
        match order {
            Order::Primary(kind) => {
                let ids = match sel {
                    None => {
                        let all = PrimaryIterator::new(&self.docs, *kind).collect();
                        assert(all@.to_set() =~= wanted);
                        all
                    },
                    Some(sel) => {
                        if sel.inv {
                            let all = PrimaryIterator::new(&self.docs, *kind).collect();
                            let ghost lets = |id: Primary| sel.admits(id);
                            let ids = sel.filter(all);
                            proof {
                                lemma_filter_order(all@, lets);
                                assert(ids@.to_set() =~= wanted) by {
                                    assert forall|id: Primary| ids@.to_set().contains(id) == wanted.contains(id) by {
                                        if all@.contains(id) {
                                            assert(all@.to_set().contains(id));
                                        }
                                        if docs.contains_key(id) {
                                            assert(self.docs.keys().to_set().contains(id));
                                            assert(all@.to_set().contains(id));
                                        }
                                    }
                                }
                            }
                            ids
                        } else {
                            let ids = sorted_ids(&sel.ids, *kind);
                            proof {
                                let f = filter->0;
                                assert forall|id: Primary| sel.ids@.contains(id)
                                    == wanted.contains(id) by {
                                    f.lemma_selection(docs, self@.index_def(f.path()).key, id);
                                    if docs.contains_key(id) {
                                        assert(sel.admits(id) == wanted.contains(id));
                                    }
                                }
                                assert(sel.ids@ =~= wanted);
                            }
                            ids
                        }
                    },
                };
                proof {
                    assert forall|i: int| 0 <= i < ids@.len() implies docs.contains_key(#[trigger] ids@[i]) by {
                        assert(ids@.to_set().contains(ids@[i]));
                    }
                }
                Ok(ids)
            },
            Order::Field(path, kind) => {
                let index = match self.req_index(path.as_str()) {
                    Ok(index) => index,
                    Err(e) => {
                        return Err(e);
                    },
                };
                let stream = index.query_iter(*kind);
                let ghost es = index.entries();
                proof {
                    assert forall|i: int| 0 <= i < stream@.len() implies docs.contains_key(#[trigger] stream@[i]) by {
                        let x = match *kind {
                            OrderKind::Asc => i,
                            OrderKind::Desc => es.len() - 1 - i,
                        };
                        assert(stream@[i] == es[x].1);
                        assert(es.to_set().contains(es[x]));
                    }
                }
                let ids = match sel {
                    None => {
                        proof {
                            lemma_filter_all(stream@, keep);
                        }
                        stream
                    },
                    Some(sel) => {
                        let ghost lets = |id: Primary| sel.admits(id);
                        proof {
                            lemma_filter_agree(stream@, lets, keep);
                        }
                        sel.filter(stream)
                    },
                };
                proof {
                    assert(is_index_content(es, docs, self@.index_def(path@)));
                    assert(ids@ == entry_ids(es, *kind).filter(keep));
                    assert forall|i: int| 0 <= i < ids@.len() implies docs.contains_key(#[trigger] ids@[i]) by {
                        entry_ids(es, *kind).lemma_filter_pred(keep, i);
                    }
                }
                Ok(ids)
            },
        }
    }

    /// Finds the documents that meet the filter, all documents where
    /// there is none, in the given order.
    pub fn find(&self, filter: Option<Filter>, order: Order) -> (r: Result<
        DocumentsIterator,
        CollectionError,
    >)
        requires
            self.inv(),
        ensures
            match r {
                Ok(found) => {
                    &&& found.inv()
                    &&& self@.missing_index(filter, order_path(order)) is None
                    &&& self@.found(filter, order, found.remaining())
                    &&& forall|i: int| 0 <= i < found.remaining().len() ==> self@.docs.contains_key(#[trigger] found.remaining()[i])
                },
                Err(e) => self@.missing_index(filter, order_path(order)) is Some
                    && is_missing_index(e, self@.missing_index(filter, order_path(order))->0),
            },
    {
        match self.find_order(&filter, &order) {
            Ok(ids) => Ok(DocumentsIterator::new(ids)),
            Err(e) => Err(e),
        }
    }

    /// Finds the documents that meet the filter, in the given order, and
    /// fetches them all.
    pub fn find_all(&self, filter: Option<Filter>, order: Order) -> (r: Result<
        Vec<RawDocument>,
        CollectionError,
    >)
        requires
            self.inv(),
        ensures
            match r {
                Ok(found) => {
                    &&& self@.missing_index(filter, order_path(order)) is None
                    &&& exists|ids: Seq<Primary>| #[trigger] self@.found(filter, order, ids) && docs_view(found@) == self@.documents(ids)
                },
                Err(e) => self@.missing_index(filter, order_path(order)) is Some
                    && is_missing_index(e, self@.missing_index(filter, order_path(order))->0),
            },
    {
        let mut it = match self.find(filter, order) {
            Ok(it) => it,
            Err(e) => {
                return Err(e);
            },
        };
        let ghost ids = it.remaining();
        let mut out: Vec<RawDocument> = Vec::new();
        loop
            invariant_except_break
                it.inv(),
                self.inv(),
                out@.len() + it.remaining().len() == ids.len(),
                it.remaining() == ids.subrange(out@.len() as int, ids.len() as int),
                forall|i: int| 0 <= i < ids.len() ==> self@.docs.contains_key(#[trigger] ids[i]),
                docs_view(out@) == self@.documents(ids.take(out@.len() as int)),
            ensures
                docs_view(out@) == self@.documents(ids),
            decreases it.remaining().len(),
        {
            let ghost before = out@;
            let ghost k = out@.len() as int;
            match it.next(self) {
                Some(Ok(doc)) => {
                    out.push(doc);
                    proof {
                        assert(ids.take(k + 1) =~= ids.take(k).push(ids[k]));
                        assert(docs_view(out@) =~= docs_view(before).push(doc@));
                        assert(self@.documents(ids.take(k + 1)) =~= self@.documents(ids.take(k)).push(doc@));
                        assert(it.remaining() =~= ids.subrange(k + 1, ids.len() as int));
                    }
                },
                Some(Err(e)) => {
                    proof {
                        assert(self@.docs.contains_key(ids[k]));
                        assert(false);
                    }
                    return Err(e);
                },
                None => {
                    proof {
                        assert(ids.take(k) =~= ids);
                    }
                    break ;
                },
            }
        }
        Ok(out)
    }

    /// All documents, in the order of their identifiers.
    pub fn dump(&self) -> (r: Result<DocumentsIterator, CollectionError>)
        requires
            self.inv(),
        ensures
            match r {
                Ok(found) => found.inv() && self@.found_by_primary(
                    None,
                    OrderKind::Asc,
                    found.remaining(),
                ),
                Err(_) => false,
            },
    {
        self.find(None, Order::default())
    }
}

} // verus!
