//! What holds of a collection across its operations.

use vstd::prelude::*;

use crate::collection::lemma_last_id_unique;
use crate::document::DocValue;
use crate::document::doc_keys;
use crate::document::FieldValue;
use crate::filter::Filter;
use crate::index::entry_ids;
use crate::key::KeyData;
use crate::key::KeyValue;
use crate::primary::decreasing;
use crate::primary::increasing;
use crate::types::IndexDefValue;
use crate::types::Order;
use crate::types::OrderKind;
use crate::types::Primary;
use crate::view::all_identified;
use crate::view::CollectionView;
use crate::view::derived_entries;
use crate::view::is_index_content;
use crate::view::is_last_id;
use crate::view::lemma_index_def;
use crate::view::loaded;
use crate::view::order_path;
use crate::view::primaries;

verus! {

/// Finitely many documents have a last identifier.
pub proof fn lemma_last_id_exists(docs: Map<Primary, Seq<FieldValue>>)
    requires
        docs.dom().finite(),
    ensures
        exists|id: Primary| is_last_id(docs, id),
    decreases docs.dom().len(),
{
    if docs.dom().len() == 0 {
        assert(docs.dom() =~= Set::<Primary>::empty());
        assert(is_last_id(docs, 0));
    } else {
        let a = docs.dom().choose();
        let rest = docs.remove(a);
        lemma_last_id_exists(rest);
        let m = choose|id: Primary| is_last_id(rest, id);
        let top = if rest.contains_key(m) && m > a {
            m
        } else {
            a
        };
        assert forall|k: Primary| docs.contains_key(k) implies k <= top by {
            if k != a {
                assert(rest.contains_key(k));
            }
        }
        if !rest.contains_key(m) {
            assert(rest.dom() =~= Set::<Primary>::empty());
        }
        assert(is_last_id(docs, top));
    }
}

/// The last identifier of a collection is the last identifier of its
/// documents.
pub proof fn lemma_last_id(c: CollectionView)
    requires
        c.docs.dom().finite(),
    ensures
        is_last_id(c.docs, c.last_id()),
{
    lemma_last_id_exists(c.docs);
}

/// Identifiers grow: after a document was inserted under an identifier,
/// the last identifier is not below it, and the next inserted document
/// takes a greater one.
pub proof fn law_identity_monotonic(
    c: CollectionView,
    first: Seq<FieldValue>,
    second: Seq<FieldValue>,
)
    requires
        c.docs.dom().finite(),
        c.last_id() + 2 <= u64::MAX,
    ensures
        c.insert(first).last_id() >= c.new_id(),
        c.insert(first).new_id() > c.new_id(),
        c.insert(first).insert(second).has(c.insert(first).new_id()),
{
    lemma_last_id(c);
    let id = c.new_id();
    let c1 = c.insert(first);
    assert(is_last_id(c1.docs, id));
    lemma_last_id_unique(c1.docs, id, id);
}

/// A document that was put is the document that is got under its
/// identifier.
pub proof fn law_round_trip(c: CollectionView, id: Primary, fields: Seq<FieldValue>)
    ensures
        c.put(id, fields).get(id) == Some(DocValue { id: Some(id), fields }),
        c.put(id, fields).has(id),
{
}

/// A document is found by each key that the index on a path draws from
/// it: by identifier, in primary order, and in the order of an index
/// that holds an entry of the document (`sort_key` is a key of such an
/// entry). And nothing is found that is not stored.
pub proof fn law_index_consistency(
    c: CollectionView,
    path: String,
    key: KeyData,
    id: Primary,
    order: Order,
    sort_key: KeyValue,
    ids: Seq<Primary>,
)
    requires
        c.docs.contains_key(id),
        doc_keys(c.docs[id], path@, c.index_def(path@).key).contains(key@),
        c.found(Some(Filter::Eq(path, key)), order, ids),
        c.missing_index(Some(Filter::Eq(path, key)), order_path(order)) is None,
        order matches Order::Field(p, _) ==> doc_keys(
            c.docs[id],
            p@,
            c.index_def(p@).key,
        ).contains(sort_key),
    ensures
        c.find_ids(Some(Filter::Eq(path, key))).contains(id),
        ids.contains(id),
        forall|k: Primary| ids.contains(k) ==> c.docs.contains_key(k),
{
    let filter = Some(Filter::Eq(path, key));
    let wanted = c.find_ids(filter);
    assert(wanted.contains(id));
    match order {
        Order::Primary(k) => {
            assert(ids.to_set().contains(id));
            assert forall|x: Primary| ids.contains(x) implies c.docs.contains_key(x) by {
                assert(ids.to_set().contains(x));
            }
        },
        Order::Field(p, k) => {
            let def = c.index_def(p@);
            let keep = |x: Primary| wanted.contains(x);
            let es = choose|es: Seq<(KeyValue, Primary)>|
                #![trigger is_index_content(es, c.docs, def)]
                is_index_content(es, c.docs, def) && ids == entry_ids(es, k).filter(keep);
            let one = sort_key;
            lemma_index_def(c.indexes, p@);
            assert(derived_entries(c.docs, def).contains((one, id)));
            assert(es.to_set().contains((one, id)));
            let i = choose|i: int| 0 <= i < es.len() && es[i] == (one, id);
            let stream = entry_ids(es, k);
            let at = match k {
                OrderKind::Asc => i,
                OrderKind::Desc => es.len() - 1 - i,
            };
            assert(stream[at] == id);
            stream.lemma_filter_contains(keep, at);
            assert forall|x: Primary| ids.contains(x) implies c.docs.contains_key(x) by {
                let j = choose|j: int| 0 <= j < ids.len() && ids[j] == x;
                stream.lemma_filter_pred(keep, j);
            }
        },
    }
}

/// What a query finds by identifier is stored.
pub proof fn law_found_is_stored(c: CollectionView, filter: Option<Filter>)
    ensures
        c.find_ids(filter).subset_of(c.docs.dom()),
{
}

/// A deleted document is gone: it is not stored, it cannot be got, and
/// no consistent index holds an entry of it.
pub proof fn law_delete_absence(c: CollectionView, id: Primary, def: IndexDefValue, key: KeyValue)
    ensures
        !c.delete(id).has(id),
        c.delete(id).get(id) is None,
        !derived_entries(c.delete(id).docs, def).contains((key, id)),
{
}

/// After a load the stored identifiers are the identifiers of the
/// loaded documents, whatever was stored before.
pub proof fn law_load_replaces(c: CollectionView, docs: Seq<DocValue>)
    requires
        all_identified(docs),
    ensures
        c.load(docs).docs.dom() == primaries(docs),
    decreases docs.len(),
{
    if docs.len() == 0 {
        assert(c.load(docs).docs.dom() =~= primaries(docs));
    } else {
        let rest = docs.drop_last();
        assert(all_identified(rest)) by {
            assert forall|i: int| 0 <= i < rest.len() implies (#[trigger] rest[i]).id is Some by {
                assert(rest[i] == docs[i]);
            }
        }
        law_load_replaces(c, rest);
        let last = docs.last();
        assert(docs[docs.len() - 1].id is Some);
        let id = last.id->0;
        assert forall|k: Primary| loaded(docs).dom().contains(k) == primaries(docs).contains(
            k,
        ) by {
            if primaries(rest).contains(k) {
                let i = choose|i: int| 0 <= i < rest.len() && (#[trigger] rest[i]).id == Some(k);
                assert(docs[i].id == Some(k));
            }
            if primaries(docs).contains(k) && k != id {
                let i = choose|i: int| 0 <= i < docs.len() && (#[trigger] docs[i]).id == Some(k);
                assert(rest[i].id == Some(k));
            }
            if k == id {
                assert(docs[docs.len() - 1].id == Some(k));
            }
        }
        assert(c.load(docs).docs.dom() =~= primaries(docs));
    }
}

/// Writing the changes of a collection that is in step with the backing
/// store brings the store to the documents of the collection.
pub proof fn law_write_through(c: CollectionView)
    requires
        c.in_step(),
    ensures
        c.written() == c.docs,
        c.taken().in_step(),
        c.taken().written() == c.docs,
{
    assert(c.written() =~= c.docs);
    assert(c.taken().written() =~= c.docs);
}

/// A filter and its negation part the documents: each stored document is
/// found by exactly one of them.
pub proof fn law_filter_inversion(c: CollectionView, f: Filter)
    ensures
        c.find_ids(Some(f)).union(c.find_ids(Some(Filter::Not(Box::new(f))))) == c.find_ids(None),
        c.find_ids(Some(f)).disjoint(c.find_ids(Some(Filter::Not(Box::new(f))))),
        c.missing_index(Some(f), None) == c.missing_index(Some(Filter::Not(Box::new(f))), None),
{
    let g = Filter::Not(Box::new(f));
    assert(g.path() == f.path());
    assert forall|fields: Seq<FieldValue>| g.matches(fields, c.index_def(f.path()).key) == !f.matches(fields, c.index_def(f.path()).key) by {}
    assert(c.find_ids(Some(f)).union(c.find_ids(Some(g))) =~= c.find_ids(None));
}

/// Two increasing sequences of the same identifiers are the same
/// sequence.
pub proof fn lemma_increasing_unique(a: Seq<Primary>, b: Seq<Primary>)
    requires
        increasing(a),
        increasing(b),
        a.to_set() == b.to_set(),
    ensures
        a == b,
    decreases a.len(),
{
    if a.len() == 0 {
        if b.len() > 0 {
            assert(b.to_set().contains(b[0]));
            assert(a.contains(b[0]));
        }
        assert(a =~= b);
    } else {
        assert(a.to_set().contains(a.last()));
        assert(b.contains(a.last()));
        let la = a.last();
        let lb = b.last();
        assert(b.to_set().contains(lb));
        assert(a.contains(lb));
        let ia = choose|i: int| 0 <= i < a.len() && a[i] == lb;
        let ib = choose|i: int| 0 <= i < b.len() && b[i] == la;
        if ia < a.len() - 1 {
            assert(a[ia] < a[a.len() - 1]);
        }
        if ib < b.len() - 1 {
            assert(b[ib] < b[b.len() - 1]);
        }
        assert(la == lb);
        let a2 = a.drop_last();
        let b2 = b.drop_last();
        assert forall|e: Primary| a2.to_set().contains(e) == b2.to_set().contains(e) by {
            if a2.contains(e) {
                let i = choose|i: int| 0 <= i < a2.len() && a2[i] == e;
                assert(a[i] == e);
                assert(a[i] < a[a.len() - 1]);
                assert(a.to_set().contains(e));
                let j = choose|j: int| 0 <= j < b.len() && b[j] == e;
                assert(b2[j] == e);
            }
            if b2.contains(e) {
                let i = choose|i: int| 0 <= i < b2.len() && b2[i] == e;
                assert(b[i] == e);
                assert(b[i] < b[b.len() - 1]);
                assert(b.to_set().contains(e));
                let j = choose|j: int| 0 <= j < a.len() && a[j] == e;
                assert(a2[j] == e);
            }
        }
        assert(a2.to_set() =~= b2.to_set());
        assert(increasing(a2)) by {
            assert forall|i: int, j: int| 0 <= i < j < a2.len() implies a2[i] < a2[j] by {
                assert(a[i] < a[j]);
            }
        }
        assert(increasing(b2)) by {
            assert forall|i: int, j: int| 0 <= i < j < b2.len() implies b2[i] < b2[j] by {
                assert(b[i] < b[j]);
            }
        }
        lemma_increasing_unique(a2, b2);
        assert(a =~= a2.push(la));
        assert(b =~= b2.push(lb));
    }
}

/// A scan in primary order is total: ascending, the identifiers grow
/// strictly; descending, they come in the reverse of the ascending scan.
/// Each direction has one answer.
pub proof fn law_order_totality(
    c: CollectionView,
    filter: Option<Filter>,
    asc: Seq<Primary>,
    desc: Seq<Primary>,
)
    requires
        c.found(filter, Order::Primary(OrderKind::Asc), asc),
        c.found(filter, Order::Primary(OrderKind::Desc), desc),
    ensures
        increasing(asc),
        decreasing(desc),
        desc == asc.reverse(),
        asc.to_set() == c.find_ids(filter),
{
    let back = desc.reverse();
    assert(increasing(back)) by {
        assert forall|i: int, j: int| 0 <= i < j < back.len() implies back[i] < back[j] by {
            assert(back[i] == desc[desc.len() - 1 - i]);
            assert(back[j] == desc[desc.len() - 1 - j]);
        }
    }
    assert(back.to_set() =~= desc.to_set()) by {
        assert forall|k: Primary| back.to_set().contains(k) == desc.to_set().contains(k) by {
            if back.contains(k) {
                let i = choose|i: int| 0 <= i < back.len() && back[i] == k;
                assert(desc[desc.len() - 1 - i] == k);
            }
            if desc.contains(k) {
                let i = choose|i: int| 0 <= i < desc.len() && desc[i] == k;
                assert(back[desc.len() - 1 - i] == k);
            }
        }
    }
    lemma_increasing_unique(asc, back);
    assert(desc =~= asc.reverse());
}

/// A consistent index has one content: the order of a scan by an index
/// is fixed by the documents.
pub proof fn law_index_order_unique(
    c: CollectionView,
    def: IndexDefValue,
    a: Seq<(KeyValue, Primary)>,
    b: Seq<(KeyValue, Primary)>,
)
    requires
        is_index_content(a, c.docs, def),
        is_index_content(b, c.docs, def),
    ensures
        a == b,
{
    crate::index::lemma_sorted_entries_unique(a, b);
}

} // verus!
