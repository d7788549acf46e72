//! Secondary indexes: the ordered set of (key, primary identifier) pairs
//! that the documents of a collection give under one field path.

use std::collections::HashSet;
use vstd::prelude::*;

use crate::document::doc_entries;
use crate::document::Field;
use crate::document::fields_view;
use crate::document::FieldValue;
use crate::key::entry_lt;
use crate::key::KeyData;
use crate::key::KeyValue;
use crate::key::lemma_entry_lt_strict_total;
use crate::types::IndexDef;
use crate::types::IndexDefValue;
use crate::types::IndexKind;
use crate::types::KeyField;
use crate::types::KeyType;
use crate::types::OrderKind;
use crate::types::Primary;

verus! {

/// Whether the entries stand in the strict order of index entries.
pub open spec fn entries_sorted(es: Seq<(KeyValue, Primary)>) -> bool {
    forall|i: int, j: int| 0 <= i < j < es.len() ==> entry_lt(#[trigger] es[i], #[trigger] es[j])
}

/// The identifiers of the entries `es`, as a scan in the direction `order`
/// meets them.
pub open spec fn entry_ids(es: Seq<(KeyValue, Primary)>, order: OrderKind) -> Seq<Primary> {
    let ids = es.map_values(|e: (KeyValue, Primary)| e.1);
    match order {
        OrderKind::Asc => ids,
        OrderKind::Desc => ids.reverse(),
    }
}

/// The entries that a document adds to an index, or none where there is no
/// document.
pub open spec fn entries_of(
    id: Primary,
    fields: Option<Seq<FieldValue>>,
    def: IndexDefValue,
) -> Set<(KeyValue, Primary)> {
    match fields {
        Some(f) => doc_entries(id, f, def.path, def.key),
        None => Set::empty(),
    }
}

/// Two sequences of entries in strict order that hold the same entries are
/// the same sequence.
pub proof fn lemma_sorted_entries_unique(a: Seq<(KeyValue, Primary)>, b: Seq<(KeyValue, Primary)>)
    requires
        entries_sorted(a),
        entries_sorted(b),
        a.to_set() == b.to_set(),
    ensures
        a == b,
    decreases a.len(),
{
    if a.len() == 0 {
        if b.len() > 0 {
            assert(b.to_set().contains(b[0]));
            assert(a.contains(b[0]));
        }
        assert(a =~= b);
    } else {
        assert(a.to_set().contains(a.last()));
        assert(b.contains(a.last()));
        let la = a.last();
        let lb = b.last();
        assert(b.to_set().contains(lb));
        assert(a.contains(lb));
        let ia = choose|i: int| 0 <= i < a.len() && a[i] == lb;
        let ib = choose|i: int| 0 <= i < b.len() && b[i] == la;
        lemma_entry_lt_strict_total(la, lb, la);
        if ia < a.len() - 1 {
            assert(entry_lt(a[ia], a[a.len() - 1]));
        }
        if ib < b.len() - 1 {
            assert(entry_lt(b[ib], b[b.len() - 1]));
        }
        assert(la == lb);
        let a2 = a.drop_last();
        let b2 = b.drop_last();
        assert forall|e: (KeyValue, Primary)| a2.to_set().contains(e) == b2.to_set().contains(
            e,
        ) by {
            lemma_entry_lt_strict_total(e, la, e);
            if a2.contains(e) {
                let i = choose|i: int| 0 <= i < a2.len() && a2[i] == e;
                assert(a[i] == e);
                assert(entry_lt(a[i], a[a.len() - 1]));
                assert(a.to_set().contains(e));
                let j = choose|j: int| 0 <= j < b.len() && b[j] == e;
                assert(b2[j] == e);
            }
            if b2.contains(e) {
                let i = choose|i: int| 0 <= i < b2.len() && b2[i] == e;
                assert(b[i] == e);
                assert(entry_lt(b[i], b[b.len() - 1]));
                assert(b.to_set().contains(e));
                let j = choose|j: int| 0 <= j < a.len() && a[j] == e;
                assert(a2[j] == e);
            }
        }
        assert(a2.to_set() =~= b2.to_set());
        lemma_sorted_entries_unique(a2, b2);
        assert(a =~= a2.push(la));
        assert(b =~= b2.push(lb));
    }
}

proof fn lemma_sorted_insert(es: Seq<(KeyValue, Primary)>, pos: int, t: (KeyValue, Primary))
    requires
        entries_sorted(es),
        0 <= pos <= es.len(),
        forall|j: int| 0 <= j < pos ==> entry_lt(#[trigger] es[j], t),
        forall|j: int| pos <= j < es.len() ==> entry_lt(t, #[trigger] es[j]),
    ensures
        entries_sorted(es.insert(pos, t)),
        es.insert(pos, t).to_set() == es.to_set().insert(t),
{
    let ns = es.insert(pos, t);
    assert forall|i: int, j: int| 0 <= i < j < ns.len() implies entry_lt(
        #[trigger] ns[i],
        #[trigger] ns[j],
    ) by {
        let oi = if i < pos { i } else { i - 1 };
        let oj = if j < pos { j } else { j - 1 };
        if i != pos && j != pos {
            assert(entry_lt(es[oi], es[oj]));
        } else if i == pos {
            assert(entry_lt(t, es[oj]));
        } else {
            assert(entry_lt(es[oi], t));
        }
    }
    assert forall|e: (KeyValue, Primary)| ns.to_set().contains(e) == es.to_set().insert(
        t,
    ).contains(e) by {
        if ns.contains(e) {
            let i = choose|i: int| 0 <= i < ns.len() && ns[i] == e;
            if i != pos {
                let oi = if i < pos { i } else { i - 1 };
                assert(es[oi] == e);
            }
        }
        if es.contains(e) {
            let i = choose|i: int| 0 <= i < es.len() && es[i] == e;
            let ni = if i < pos { i } else { i + 1 };
            assert(ns[ni] == e);
        }
        if e == t {
            assert(ns[pos] == e);
        }
    }
    assert(ns.to_set() =~= es.to_set().insert(t));
}

proof fn lemma_sorted_remove(es: Seq<(KeyValue, Primary)>, pos: int)
    requires
        entries_sorted(es),
        0 <= pos < es.len(),
    ensures
        entries_sorted(es.remove(pos)),
        es.remove(pos).to_set() == es.to_set().remove(es[pos]),
{
    let ns = es.remove(pos);
    let t = es[pos];
    assert forall|i: int, j: int| 0 <= i < j < ns.len() implies entry_lt(
        #[trigger] ns[i],
        #[trigger] ns[j],
    ) by {
        let oi = if i < pos { i } else { i + 1 };
        let oj = if j < pos { j } else { j + 1 };
        assert(entry_lt(es[oi], es[oj]));
    }
    assert forall|e: (KeyValue, Primary)| ns.to_set().contains(e) == es.to_set().remove(
        t,
    ).contains(e) by {
        lemma_entry_lt_strict_total(e, t, e);
        if ns.contains(e) {
            let i = choose|i: int| 0 <= i < ns.len() && ns[i] == e;
            let oi = if i < pos { i } else { i + 1 };
            assert(es[oi] == e);
            if oi < pos {
                assert(entry_lt(es[oi], es[pos]));
            } else {
                assert(entry_lt(es[pos], es[oi]));
            }
        }
        if es.contains(e) && e != t {
            let i = choose|i: int| 0 <= i < es.len() && es[i] == e;
            let ni = if i < pos { i } else { i - 1 };
            assert(ns[ni] == e);
        }
    }
    assert(ns.to_set() =~= es.to_set().remove(t));
}

/// What one more field adds to the entries of a document.
pub proof fn lemma_doc_entries_push(
    id: Primary,
    fields: Seq<FieldValue>,
    x: FieldValue,
    path: Seq<char>,
    key: KeyType,
)
    ensures
        doc_entries(id, fields.push(x), path, key) == if x.path == path && x.value.kind() == key {
            doc_entries(id, fields, path, key).insert((x.value, id))
        } else {
            doc_entries(id, fields, path, key)
        },
        doc_entries(id, Seq::empty(), path, key) == Set::<(KeyValue, Primary)>::empty(),
{
    let more = fields.push(x);
    let target = if x.path == path && x.value.kind() == key {
        doc_entries(id, fields, path, key).insert((x.value, id))
    } else {
        doc_entries(id, fields, path, key)
    };
    assert forall|e: (KeyValue, Primary)| doc_entries(id, more, path, key).contains(e)
        == target.contains(e) by {
        let f = FieldValue { path, value: e.0 };
        if more.contains(f) {
            let i = choose|i: int| 0 <= i < more.len() && more[i] == f;
            if i < fields.len() {
                assert(fields[i] == f);
            }
        }
        if fields.contains(f) {
            let i = choose|i: int| 0 <= i < fields.len() && fields[i] == f;
            assert(more[i] == f);
        }
        if x == f {
            assert(more[fields.len() as int] == f);
        }
    }
    assert(doc_entries(id, more, path, key) =~= target);
    assert(doc_entries(id, Seq::empty(), path, key) =~= Set::<(KeyValue, Primary)>::empty());
}

/// An index of a collection.
pub struct Index {
    def: IndexDef,
    keys: Vec<KeyData>,
    ids: Vec<Primary>,
}

impl Index {
    /// The definition of the index.
    pub closed spec fn def(&self) -> IndexDefValue {
        self.def@
    }

    /// The entries of the index, in their order.
    pub closed spec fn entries(&self) -> Seq<(KeyValue, Primary)> {
        Seq::new(self.keys@.len(), |i: int| (self.keys@[i]@, self.ids@[i]))
    }

    /// The entries of the index, as a set.
    pub open spec fn entry_set(&self) -> Set<(KeyValue, Primary)> {
        self.entries().to_set()
    }

    /// The index is well formed: its entries stand in strict order.
    pub closed spec fn inv(&self) -> bool {
        &&& self.keys@.len() == self.ids@.len()
        &&& entries_sorted(self.entries())
    }

    /// A well-formed index holds its entries in strict order.
    pub proof fn lemma_sorted(&self)
        requires
            self.inv(),
        ensures
            entries_sorted(self.entries()),
    {
    }

    /// An index without entries.
    pub fn new(def: IndexDef) -> (r: Self)
        ensures
            r.inv(),
            r.def() == def@,
            r.entries() == Seq::<(KeyValue, Primary)>::empty(),
    {
        let r = Index { def, keys: Vec::new(), ids: Vec::new() };
        assert(r.entries() =~= Seq::<(KeyValue, Primary)>::empty());
        r
    }

    /// The definition of the index.
    pub fn get_def(&self) -> (r: &IndexDef)
        ensures
            r@ == self.def(),
    {
        &self.def
    }

    /// The field path that the index covers.
    pub fn path(&self) -> (r: &String)
        ensures
            r@ == self.def().path,
    {
        &self.def.path
    }

    /// The kind of the index.
    pub fn kind(&self) -> (r: IndexKind)
        ensures
            r == self.def().kind,
    {
        self.def.kind
    }

    /// The type of the keys of the index.
    pub fn key(&self) -> (r: KeyType)
        ensures
            r == self.def().key,
    {
        self.def.key
    }

    /// What the index says of itself to a caller.
    pub fn field(&self) -> (r: KeyField)
        ensures
            r@ == self.def().field(),
    {
        KeyField { path: self.def.path.clone(), kind: self.def.kind, key: self.def.key }
    }

    /// The number of entries.
    pub fn len(&self) -> (r: usize)
        requires
            self.inv(),
        ensures
            r == self.entries().len(),
    {
        self.keys.len()
    }

    fn before(&self, pos: usize, key: &KeyData, id: Primary) -> (r: bool)
        requires
            self.inv(),
            pos < self.entries().len(),
        ensures
            r == entry_lt(self.entries()[pos as int], (key@, id)),
    {
        self.keys[pos].less(key) || (self.keys[pos].same(key) && self.ids[pos] < id)
    }

    /// The number of entries that precede the entry (`key`, `id`).
    fn position(&self, key: &KeyData, id: Primary) -> (r: usize)
        requires
            self.inv(),
        ensures
            r <= self.entries().len(),
            forall|j: int| 0 <= j < r ==> entry_lt(#[trigger] self.entries()[j], (key@, id)),
            forall|j: int|
                r <= j < self.entries().len() ==> (#[trigger] self.entries()[j] == (key@, id) && j
                    == r) || entry_lt((key@, id), self.entries()[j]),
    {
        let ghost es = self.entries();
        let ghost t = (key@, id);
        let mut lo: usize = 0;
        let mut hi: usize = self.keys.len();
        while lo < hi
            invariant
                self.inv(),
                es == self.entries(),
                t == (key@, id),
                lo <= hi <= es.len(),
                forall|j: int| 0 <= j < lo ==> entry_lt(#[trigger] es[j], t),
                forall|j: int| hi <= j < es.len() ==> !entry_lt(#[trigger] es[j], t),
            decreases hi - lo,
        {
            let mid: usize = lo + (hi - lo) / 2;
            if self.before(mid, key, id) {
                assert forall|j: int| 0 <= j < mid + 1 implies entry_lt(#[trigger] es[j], t) by {
                    if j < mid {
                        assert(entry_lt(es[j], es[mid as int]));
                        lemma_entry_lt_strict_total(es[j], es[mid as int], t);
                    }
                }
                lo = mid + 1;
            } else {
                assert forall|j: int| mid <= j < es.len() implies !entry_lt(
                    #[trigger] es[j],
                    t,
                ) by {
                    if j > mid {
                        assert(entry_lt(es[mid as int], es[j]));
                        lemma_entry_lt_strict_total(es[mid as int], es[j], t);
                    }
                }
                hi = mid;
            }
        }
        proof {
            assert forall|j: int| lo <= j < es.len() implies (#[trigger] es[j] == t && j == lo)
                || entry_lt(t, es[j]) by {
                lemma_entry_lt_strict_total(es[j], t, es[j]);
                if j > lo {
                    assert(entry_lt(es[lo as int], es[j]));
                    lemma_entry_lt_strict_total(es[lo as int], t, es[lo as int]);
                    lemma_entry_lt_strict_total(t, es[lo as int], es[j]);
                    lemma_entry_lt_strict_total(es[lo as int], es[j], es[lo as int]);
                }
            }
        }
        lo
    }

    /// Adds the entry (`key`, `id`), unless the index holds it.
    fn insert_entry(&mut self, key: KeyData, id: Primary)
        requires
            old(self).inv(),
        ensures
            final(self).inv(),
            final(self).def() == old(self).def(),
            final(self).entry_set() == old(self).entry_set().insert((key@, id)),
    {
        let pos = self.position(&key, id);
        let ghost es = self.entries();
        let ghost t = (key@, id);
        if pos < self.keys.len() && self.keys[pos].same(&key) && self.ids[pos] == id {
            assert(es[pos as int] == t);
            assert(es.to_set().contains(t));
            assert(es.to_set() =~= es.to_set().insert(t));
        } else {
            proof {
                lemma_sorted_insert(es, pos as int, t);
            }
            self.keys.insert(pos, key);
            self.ids.insert(pos, id);
            assert(self.entries() =~= es.insert(pos as int, t));
        }
    }

    /// Takes the entry (`key`, `id`) out, if the index holds it.
    fn remove_entry(&mut self, key: &KeyData, id: Primary)
        requires
            old(self).inv(),
        ensures
            final(self).inv(),
            final(self).def() == old(self).def(),
            final(self).entry_set() == old(self).entry_set().remove((key@, id)),
    {
        let pos = self.position(key, id);
        let ghost es = self.entries();
        let ghost t = (key@, id);
        if pos < self.keys.len() && self.keys[pos].same(key) && self.ids[pos] == id {
            proof {
                assert(es[pos as int] == t);
                lemma_sorted_remove(es, pos as int);
            }
            self.keys.remove(pos);
            self.ids.remove(pos);
            assert(self.entries() =~= es.remove(pos as int));
        } else {
            proof {
                if es.contains(t) {
                    let i = choose|i: int| 0 <= i < es.len() && es[i] == t;
                    lemma_entry_lt_strict_total(es[i], t, es[i]);
                    assert(false);
                }
                assert(es.to_set() =~= es.to_set().remove(t));
            }
        }
    }

    /// Takes out the entries of the document `id` as it was (`old`) and
    /// adds those of the document as it is now (`new`).
    pub fn update_index(
        &mut self,
        id: Primary,
        old_fields: Option<&Vec<Field>>,
        new_fields: Option<&Vec<Field>>,
    )
        requires
            old(self).inv(),
        ensures
            final(self).inv(),
            final(self).def() == old(self).def(),
            final(self).entry_set() == old(self).entry_set().difference(
                entries_of(id, option_fields_view(old_fields), old(self).def()),
            ).union(entries_of(id, option_fields_view(new_fields), old(self).def())),
    {
        let ghost def = self.def();
        let ghost start = self.entry_set();
        if let Some(fields) = old_fields {
            let ghost fv = fields_view(fields@);
            let mut j: usize = 0;
            proof {
                lemma_doc_entries_push(id, fv, fv[0], def.path, def.key);
                assert(fv.take(0) =~= Seq::<FieldValue>::empty());
                assert(start.difference(Set::<(KeyValue, Primary)>::empty()) =~= start);
            }
            while j < fields.len()
                invariant
                    j <= fields.len(),
                    self.inv(),
                    self.def() == def,
                    fv == fields_view(fields@),
                    self.entry_set() == start.difference(
                        doc_entries(id, fv.take(j as int), def.path, def.key),
                    ),
                decreases fields.len() - j,
            {
                proof {
                    assert(fv.take(j + 1) == fv.take(j as int).push(fv[j as int]));
                    lemma_doc_entries_push(id, fv.take(j as int), fv[j as int], def.path, def.key);
                }
                if fields[j].path == self.def.path && fields[j].value.kind() == self.def.key {
                    self.remove_entry(&fields[j].value, id);
                }
                assert(self.entry_set() =~= start.difference(
                    doc_entries(id, fv.take(j + 1), def.path, def.key),
                ));
                j = j + 1;
            }
            assert(fv.take(fields.len() as int) == fv);
        } else {
            assert(start.difference(Set::<(KeyValue, Primary)>::empty()) =~= start);
        }
        let ghost middle = self.entry_set();
        if let Some(fields) = new_fields {
            let ghost fv = fields_view(fields@);
            let mut j: usize = 0;
            proof {
                lemma_doc_entries_push(id, fv, fv[0], def.path, def.key);
                assert(fv.take(0) =~= Seq::<FieldValue>::empty());
                assert(middle.union(Set::<(KeyValue, Primary)>::empty()) =~= middle);
            }
            while j < fields.len()
                invariant
                    j <= fields.len(),
                    self.inv(),
                    self.def() == def,
                    fv == fields_view(fields@),
                    self.entry_set() == middle.union(
                        doc_entries(id, fv.take(j as int), def.path, def.key),
                    ),
                decreases fields.len() - j,
            {
                proof {
                    assert(fv.take(j + 1) == fv.take(j as int).push(fv[j as int]));
                    lemma_doc_entries_push(id, fv.take(j as int), fv[j as int], def.path, def.key);
                }
                if fields[j].path == self.def.path && fields[j].value.kind() == self.def.key {
                    self.insert_entry(fields[j].value.clone(), id);
                }
                assert(self.entry_set() =~= middle.union(
                    doc_entries(id, fv.take(j + 1), def.path, def.key),
                ));
                j = j + 1;
            }
            assert(fv.take(fields.len() as int) == fv);
        } else {
            assert(middle.union(Set::<(KeyValue, Primary)>::empty()) =~= middle);
        }
    }

    /// Takes every entry out.
    pub fn purge(&mut self)
        ensures
            final(self).inv(),
            final(self).def() == old(self).def(),
            final(self).entries() == Seq::<(KeyValue, Primary)>::empty(),
    {
        self.keys.clear();
        self.ids.clear();
        assert(self.entries() =~= Seq::<(KeyValue, Primary)>::empty());
    }

    /// The identifiers of the entries, in the order of the entries or in
    /// the reverse of it.
    pub fn query_iter(&self, order: OrderKind) -> (r: Vec<Primary>)
        requires
            self.inv(),
        ensures
            r@ == entry_ids(self.entries(), order),
    {
        let n = self.ids.len();
        let mut out: Vec<Primary> = Vec::new();
        let mut i: usize = 0;
        while i < n
            invariant
                i <= n,
                n == self.ids@.len(),
                n == self.keys@.len(),
                out@.len() == i,
                forall|k: int|
                    0 <= k < i ==> out@[k] == match order {
                        OrderKind::Asc => self.ids@[k],
                        OrderKind::Desc => self.ids@[n - 1 - k],
                    },
            decreases n - i,
        {
            let id = match order {
                OrderKind::Asc => self.ids[i],
                OrderKind::Desc => self.ids[n - 1 - i],
            };
            out.push(id);
            i = i + 1;
        }
        assert(out@ =~= entry_ids(self.entries(), order));
        out
    }

    /// The identifiers of the documents that have `key` in this index.
    pub fn query_eq(&self, key: &KeyData) -> (r: HashSet<Primary>)
        requires
            self.inv(),
        ensures
            r@ == Set::new(|id: Primary| self.entry_set().contains((key@, id))),
    {
        let ghost es = self.entries();
        let ghost want = Set::new(|id: Primary| self.entry_set().contains((key@, id)));
        let first = self.position(key, 0);
        let n = self.keys.len();
        let mut out: HashSet<Primary> = HashSet::new();
        let mut i: usize = first;
        while i < n && self.keys[i].same(key)
            invariant
                self.inv(),
                es == self.entries(),
                n == es.len(),
                first <= i <= n,
                forall|j: int| first <= j < i ==> (#[trigger] es[j]).0 == key@,
                out@ == Set::new(|id: Primary| exists|j: int| first <= j < i && es[j] == (key@, id)),
            decreases n - i,
        {
            let ghost before = out@;
            out.insert(self.ids[i]);
            assert(out@ =~= Set::new(
                |id: Primary| exists|j: int| first <= j < i + 1 && es[j] == (key@, id),
            )) by {
                assert(es[i as int] == (key@, self.ids@[i as int]));
            }
            i = i + 1;
        }
        proof {
            assert forall|id: Primary| want.contains(id) implies out@.contains(id) by {
                let j = choose|j: int| 0 <= j < es.len() && es[j] == (key@, id);
                lemma_entry_lt_strict_total(es[j], (key@, 0), es[j]);
                crate::key::lemma_key_lt_asymmetric(key@, key@);
                if j < first {
                    assert(entry_lt(es[j], (key@, 0)));
                }
                if j >= i {
                    assert(i < n);
                    if j > i {
                        assert(entry_lt(es[i as int], es[j]));
                    }
                    assert(entry_lt((key@, 0), es[i as int]) || es[i as int] == (key@, 0u64));
                    crate::key::lemma_key_lt_asymmetric(key@, es[i as int].0);
                    crate::key::lemma_key_lt_asymmetric(es[i as int].0, key@);
                    assert(false);
                }
            }
            assert forall|id: Primary| out@.contains(id) implies want.contains(id) by {
                let j = choose|j: int| first <= j < i && es[j] == (key@, id);
                assert(es.contains(es[j]));
            }
            assert(out@ =~= want);
        }
        out
    }
}

/// The mathematical value of the fields of a document that may be absent.
pub open spec fn option_fields_view(fields: Option<&Vec<Field>>) -> Option<Seq<FieldValue>> {
    match fields {
        Some(f) => Some(fields_view(f@)),
        None => None,
    }
}

} // verus!
