//! Filters and the selections they evaluate to.

use std::collections::HashSet;
use vstd::prelude::*;

use crate::collection::Collection;
use crate::document::doc_keys;
use crate::document::FieldValue;
use crate::key::KeyData;
use crate::types::CollectionError;
use crate::types::is_missing_index;
use crate::types::KeyType;
use crate::types::Primary;

verus! {

/// What a filter evaluates to: a set of identifiers, and whether the set
/// says which documents match or which do not.
pub struct Selection {
    pub ids: HashSet<Primary>,
    pub inv: bool,
}

impl Selection {
    /// Whether the selection lets the identifier through: membership in
    /// the set, turned round where the selection is inverted.
    pub open spec fn admits(&self, id: Primary) -> bool {
        self.ids@.contains(id) != self.inv
    }

    /// Whether the selection lets the identifier through.
    pub fn has(&self, id: Primary) -> (r: bool)
        ensures
            r == self.admits(id),
    {
        self.ids.contains(&id) != self.inv
    }

    /// The identifiers of `stream` that the selection lets through, in the
    /// order of the stream.
    pub fn filter(&self, stream: Vec<Primary>) -> (r: Vec<Primary>)
        ensures
            r@ == stream@.filter(|id: Primary| self.admits(id)),
    {
        let ghost keep = |id: Primary| self.admits(id);
        let mut out: Vec<Primary> = Vec::new();
        let mut i: usize = 0;
        proof {
            reveal(Seq::filter);
            assert(stream@.take(0) == Seq::<Primary>::empty());
        }
        while i < stream.len()
            invariant
                i <= stream.len(),
                keep == |id: Primary| self.admits(id),
                out@ == stream@.take(i as int).filter(keep),
            decreases stream.len() - i,
        {
            proof {
                assert(stream@.take(i + 1) == stream@.take(i as int).push(stream@[i as int]));
                stream@.take(i as int).lemma_filter_push(stream@[i as int], keep);
            }
            if self.has(stream[i]) {
                out.push(stream[i]);
            }
            i = i + 1;
        }
        proof {
            assert(stream@.take(stream.len() as int) == stream@);
        }
        out
    }

    /// The selection that lets through what this one holds back.
    pub fn negate(self) -> (r: Selection)
        ensures
            r.ids == self.ids,
            r.inv == !self.inv,
    {
        Selection { ids: self.ids, inv: !self.inv }
    }
}

/// A condition on documents.
#[derive(Debug, PartialEq, Eq)]
pub enum Filter {
    /// The field under the path has the key among its values.
    Eq(String, KeyData),
    /// The inner condition does not hold.
    Not(Box<Filter>),
}

impl Filter {
    /// The field path that the filter tests.
    pub open spec fn path(self) -> Seq<char>
        decreases self,
    {
        match self {
            Filter::Eq(p, _) => p@,
            Filter::Not(f) => f.path(),
        }
    }

    /// Whether a document with the given fields meets the filter, where
    /// the index on the tested path holds keys of type `ty`.
    pub open spec fn matches(self, fields: Seq<FieldValue>, ty: KeyType) -> bool
        decreases self,
    {
        match self {
            Filter::Eq(p, k) => doc_keys(fields, p@, ty).contains(k@),
            Filter::Not(f) => !f.matches(fields, ty),
        }
    }

    /// The set of the selection that the filter evaluates to: the
    /// documents that have the tested key.
    pub open spec fn selected(
        self,
        docs: Map<Primary, Seq<FieldValue>>,
        ty: KeyType,
    ) -> Set<Primary>
        decreases self,
    {
        match self {
            Filter::Eq(p, k) => Set::new(
                |id: Primary| docs.contains_key(id) && doc_keys(docs[id], p@, ty).contains(k@),
            ),
            Filter::Not(f) => f.selected(docs, ty),
        }
    }

    /// Whether the filter evaluates to an inverted selection.
    pub open spec fn inverted(self) -> bool
        decreases self,
    {
        match self {
            Filter::Eq(_, _) => false,
            Filter::Not(f) => !f.inverted(),
        }
    }

    /// The filter that holds of the documents with `key` under `path`.
    pub fn field_eq(path: &str, key: KeyData) -> (r: Filter)
        ensures
            r matches Filter::Eq(p, k) && p@ == path@ && k == key,
    {
        Filter::Eq(path.to_owned(), key)
    }

    /// The filter that holds where `inner` does not.
    pub fn not(inner: Filter) -> (r: Filter)
        ensures
            r == Filter::Not(Box::new(inner)),
    {
        Filter::Not(Box::new(inner))
    }

    /// The selection of a filter holds stored documents only, and lets
    /// through exactly the stored documents that meet the filter.
    pub proof fn lemma_selection(self, docs: Map<Primary, Seq<FieldValue>>, ty: KeyType, id: Primary)
        ensures
            self.selected(docs, ty).contains(id) ==> docs.contains_key(id),
            docs.contains_key(id) ==> ((self.selected(docs, ty).contains(id) != self.inverted())
                == self.matches(docs[id], ty)),
        decreases self,
    {
        match self {
            Filter::Eq(_, _) => {},
            Filter::Not(f) => {
                f.lemma_selection(docs, ty, id);
            },
        }
    }

    /// Evaluates the filter against the collection, through the index on
    /// the tested field path.
    pub fn apply(&self, coll: &Collection) -> (r: Result<Selection, CollectionError>)
        requires
            coll.inv(),
        ensures
            match r {
                Ok(sel) => coll@.has_index(self.path()) && sel.inv == self.inverted() && sel.ids@
                    == self.selected(coll@.docs, coll@.index_def(self.path()).key),
                Err(e) => !coll@.has_index(self.path()) && is_missing_index(e, self.path()),
            },
        decreases self,
    {
        match self {
            Filter::Eq(path, key) => {
                let index = match coll.req_index(path.as_str()) {
                    Ok(index) => index,
                    Err(e) => {
                        return Err(e);
                    },
                };
                let ids = index.query_eq(key);
                assert(ids@ =~= self.selected(coll@.docs, coll@.index_def(self.path()).key));
                Ok(Selection { ids, inv: false })
            },
            Filter::Not(inner) => match inner.apply(coll) {
                Ok(sel) => Ok(sel.negate()),
                Err(e) => Err(e),
            },
        }
    }
}

impl Clone for Filter {
    fn clone(&self) -> (r: Self)
        ensures
            r == *self,
        decreases self,
    {
        match self {
            Filter::Eq(path, key) => Filter::Eq(path.clone(), key.clone()),
            Filter::Not(inner) => Filter::Not(Box::new((**inner).clone())),
        }
    }
}

/// Two conditions that agree on every element of a sequence keep the same
/// elements of it.
pub proof fn lemma_filter_agree<A>(s: Seq<A>, p: spec_fn(A) -> bool, q: spec_fn(A) -> bool)
    requires
        forall|i: int| 0 <= i < s.len() ==> p(#[trigger] s[i]) == q(s[i]),
    ensures
        s.filter(p) == s.filter(q),
    decreases s.len(),
{
    reveal(Seq::filter);
    if s.len() > 0 {
        let rest = s.drop_last();
        assert forall|i: int| 0 <= i < rest.len() implies p(#[trigger] rest[i]) == q(rest[i]) by {
            assert(rest[i] == s[i]);
        }
        lemma_filter_agree(rest, p, q);
        assert(p(s.last()) == q(s.last()));
    }
}

/// A condition that holds of every element of a sequence keeps the whole
/// sequence.
pub proof fn lemma_filter_all<A>(s: Seq<A>, p: spec_fn(A) -> bool)
    requires
        forall|i: int| 0 <= i < s.len() ==> p(#[trigger] s[i]),
    ensures
        s.filter(p) == s,
    decreases s.len(),
{
    reveal(Seq::filter);
    if s.len() > 0 {
        let rest = s.drop_last();
        assert forall|i: int| 0 <= i < rest.len() implies p(#[trigger] rest[i]) by {
            assert(rest[i] == s[i]);
        }
        lemma_filter_all(rest, p);
        assert(p(s.last()));
        assert(rest.push(s.last()) =~= s);
    }
}

/// What a condition keeps of a sequence are the elements of the sequence
/// that meet it, in the order of the sequence.
pub proof fn lemma_filter_order(s: Seq<Primary>, p: spec_fn(Primary) -> bool)
    ensures
        s.filter(p).to_set() == Set::new(|k: Primary| s.contains(k) && p(k)),
        crate::primary::increasing(s) ==> crate::primary::increasing(s.filter(p)),
        crate::primary::decreasing(s) ==> crate::primary::decreasing(s.filter(p)),
    decreases s.len(),
{
    reveal(Seq::filter);
    let kept = s.filter(p);
    let want = Set::new(|k: Primary| s.contains(k) && p(k));
    if s.len() == 0 {
        assert(kept.to_set() =~= want);
    } else {
        let rest = s.drop_last();
        let last = s.last();
        lemma_filter_order(rest, p);
        let kept_rest = rest.filter(p);
        assert forall|k: Primary| kept.to_set().contains(k) == want.contains(k) by {
            if kept.contains(k) {
                let i = choose|i: int| 0 <= i < kept.len() && kept[i] == k;
                if i < kept_rest.len() {
                    assert(kept_rest[i] == k);
                    assert(kept_rest.to_set().contains(k));
                    assert(rest.contains(k));
                    let j = choose|j: int| 0 <= j < rest.len() && rest[j] == k;
                    assert(s[j] == k);
                } else {
                    assert(k == last);
                    assert(s[s.len() - 1] == k);
                }
            }
            if s.contains(k) && p(k) {
                let j = choose|j: int| 0 <= j < s.len() && s[j] == k;
                if j < rest.len() {
                    assert(rest[j] == k);
                    assert(rest.contains(k));
                    assert(kept_rest.to_set().contains(k));
                    let i = choose|i: int| 0 <= i < kept_rest.len() && kept_rest[i] == k;
                    assert(kept[i] == k);
                } else {
                    assert(kept[kept.len() - 1] == k);
                }
            }
        }
        assert(kept.to_set() =~= want);
        if crate::primary::increasing(s) {
            assert(crate::primary::increasing(rest)) by {
                assert forall|i: int, j: int| 0 <= i < j < rest.len() implies rest[i] < rest[j] by {
                    assert(s[i] < s[j]);
                }
            }
            assert forall|i: int, j: int| 0 <= i < j < kept.len() implies kept[i] < kept[j] by {
                if j < kept_rest.len() {
                    assert(kept_rest[i] < kept_rest[j]);
                } else {
                    assert(kept_rest[i] == kept[i]);
                    assert(kept_rest.to_set().contains(kept[i]));
                    assert(rest.contains(kept[i]));
                    let x = choose|x: int| 0 <= x < rest.len() && rest[x] == kept[i];
                    assert(s[x] < s[s.len() - 1]);
                }
            }
        }
        if crate::primary::decreasing(s) {
            assert(crate::primary::decreasing(rest)) by {
                assert forall|i: int, j: int| 0 <= i < j < rest.len() implies rest[i] > rest[j] by {
                    assert(s[i] > s[j]);
                }
            }
            assert forall|i: int, j: int| 0 <= i < j < kept.len() implies kept[i] > kept[j] by {
                if j < kept_rest.len() {
                    assert(kept_rest[i] > kept_rest[j]);
                } else {
                    assert(kept_rest[i] == kept[i]);
                    assert(kept_rest.to_set().contains(kept[i]));
                    assert(rest.contains(kept[i]));
                    let x = choose|x: int| 0 <= x < rest.len() && rest[x] == kept[i];
                    assert(s[x] > s[s.len() - 1]);
                }
            }
        }
    }
}

} // verus!
