//! The primary map of a collection: documents under their identifiers, in
//! numeric order, and the cursor that walks it.

use vstd::prelude::*;

use crate::document::Field;
use crate::document::fields_view;
use crate::document::FieldValue;
use crate::types::OrderKind;
use crate::types::Primary;

verus! {

/// Whether the identifiers stand in strictly increasing order.
pub open spec fn increasing(s: Seq<Primary>) -> bool {
    forall|i: int, j: int| 0 <= i < j < s.len() ==> s[i] < s[j]
}

/// Whether the identifiers stand in strictly decreasing order.
pub open spec fn decreasing(s: Seq<Primary>) -> bool {
    forall|i: int, j: int| 0 <= i < j < s.len() ==> s[i] > s[j]
}

/// The identifiers `keys`, given in increasing order, as a scan in the
/// direction `order` meets them.
pub open spec fn ordered(keys: Seq<Primary>, order: OrderKind) -> Seq<Primary> {
    match order {
        OrderKind::Asc => keys,
        OrderKind::Desc => keys.reverse(),
    }
}

/// An increasing sequence holds no identifier twice, and its reverse is
/// decreasing.
pub proof fn lemma_increasing(s: Seq<Primary>)
    requires
        increasing(s),
    ensures
        s.no_duplicates(),
        decreasing(s.reverse()),
        s.reverse().to_set() == s.to_set(),
{
    let r = s.reverse();
    assert forall|i: int, j: int| 0 <= i < j < r.len() implies r[i] > r[j] by {
        assert(r[i] == s[s.len() - 1 - i]);
        assert(r[j] == s[s.len() - 1 - j]);
    }
    assert forall|k: Primary| r.to_set().contains(k) == s.to_set().contains(k) by {
        if r.contains(k) {
            let i = choose|i: int| 0 <= i < r.len() && r[i] == k;
            assert(s[s.len() - 1 - i] == k);
        }
        if s.contains(k) {
            let i = choose|i: int| 0 <= i < s.len() && s[i] == k;
            assert(r[s.len() - 1 - i] == k);
        }
    }
    assert(r.to_set() =~= s.to_set());
}

/// Whether the map `m` is what the identifiers `keys`, in increasing
/// order, and the fields `vals` at the same positions stand for.
pub open spec fn represents(
    keys: Seq<Primary>,
    vals: Seq<Seq<FieldValue>>,
    m: Map<Primary, Seq<FieldValue>>,
) -> bool {
    &&& keys.len() == vals.len()
    &&& increasing(keys)
    &&& m.dom() == keys.to_set()
    &&& forall|i: int| 0 <= i < keys.len() ==> m[#[trigger] keys[i]] == vals[i]
}

proof fn lemma_represents_unique(
    keys: Seq<Primary>,
    vals: Seq<Seq<FieldValue>>,
    m1: Map<Primary, Seq<FieldValue>>,
    m2: Map<Primary, Seq<FieldValue>>,
)
    requires
        represents(keys, vals, m1),
        represents(keys, vals, m2),
    ensures
        m1 == m2,
{
    assert forall|k: Primary| m1.contains_key(k) implies m1[k] == m2[k] by {
        let i = choose|i: int| 0 <= i < keys.len() && keys[i] == k;
        assert(m1[keys[i]] == vals[i]);
        assert(m2[keys[i]] == vals[i]);
    }
    assert(m1 =~= m2);
}

proof fn lemma_represents_insert(
    keys: Seq<Primary>,
    vals: Seq<Seq<FieldValue>>,
    m: Map<Primary, Seq<FieldValue>>,
    pos: int,
    id: Primary,
    fv: Seq<FieldValue>,
)
    requires
        represents(keys, vals, m),
        0 <= pos <= keys.len(),
        forall|j: int| 0 <= j < pos ==> keys[j] < id,
        forall|j: int| pos <= j < keys.len() ==> keys[j] > id,
    ensures
        represents(keys.insert(pos, id), vals.insert(pos, fv), m.insert(id, fv)),
        !m.contains_key(id),
{
    let nk = keys.insert(pos, id);
    let nv = vals.insert(pos, fv);
    let nm = m.insert(id, fv);
    if m.contains_key(id) {
        let i = choose|i: int| 0 <= i < keys.len() && keys[i] == id;
        assert(false);
    }
    assert forall|i: int, j: int| 0 <= i < j < nk.len() implies nk[i] < nk[j] by {
        let oi = if i < pos { i } else { i - 1 };
        let oj = if j < pos { j } else { j - 1 };
        if i != pos && j != pos {
            assert(keys[oi] < keys[oj]);
        }
    }
    assert forall|k: Primary| nm.dom().contains(k) == nk.to_set().contains(k) by {
        if nm.dom().contains(k) && k != id {
            let i = choose|i: int| 0 <= i < keys.len() && keys[i] == k;
            let ni = if i < pos { i } else { i + 1 };
            assert(nk[ni] == k);
        }
        if k == id {
            assert(nk[pos] == k);
        }
        if nk.to_set().contains(k) && k != id {
            let i = choose|i: int| 0 <= i < nk.len() && nk[i] == k;
            let oi = if i < pos { i } else { i - 1 };
            assert(keys[oi] == k);
        }
    }
    assert(nm.dom() =~= nk.to_set());
    assert forall|i: int| 0 <= i < nk.len() implies nm[#[trigger] nk[i]] == nv[i] by {
        if i != pos {
            let oi = if i < pos { i } else { i - 1 };
            assert(m[keys[oi]] == vals[oi]);
        }
    }
}

proof fn lemma_represents_update(
    keys: Seq<Primary>,
    vals: Seq<Seq<FieldValue>>,
    m: Map<Primary, Seq<FieldValue>>,
    pos: int,
    fv: Seq<FieldValue>,
)
    requires
        represents(keys, vals, m),
        0 <= pos < keys.len(),
    ensures
        represents(keys, vals.update(pos, fv), m.insert(keys[pos], fv)),
        m.contains_key(keys[pos]),
        m[keys[pos]] == vals[pos],
{
    let nv = vals.update(pos, fv);
    let nm = m.insert(keys[pos], fv);
    assert(keys.to_set().contains(keys[pos]));
    assert(nm.dom() =~= keys.to_set());
    assert forall|i: int| 0 <= i < keys.len() implies nm[#[trigger] keys[i]] == nv[i] by {
        if i != pos {
            assert(keys[i] != keys[pos]);
            assert(m[keys[i]] == vals[i]);
        }
    }
}

proof fn lemma_represents_remove(
    keys: Seq<Primary>,
    vals: Seq<Seq<FieldValue>>,
    m: Map<Primary, Seq<FieldValue>>,
    pos: int,
)
    requires
        represents(keys, vals, m),
        0 <= pos < keys.len(),
    ensures
        represents(keys.remove(pos), vals.remove(pos), m.remove(keys[pos])),
        m.contains_key(keys[pos]),
        m[keys[pos]] == vals[pos],
{
    let id = keys[pos];
    let nk = keys.remove(pos);
    let nv = vals.remove(pos);
    let nm = m.remove(id);
    assert(keys.to_set().contains(id));
    assert forall|i: int, j: int| 0 <= i < j < nk.len() implies nk[i] < nk[j] by {
        let oi = if i < pos { i } else { i + 1 };
        let oj = if j < pos { j } else { j + 1 };
        assert(keys[oi] < keys[oj]);
    }
    assert forall|k: Primary| nm.dom().contains(k) == nk.to_set().contains(k) by {
        if nm.dom().contains(k) {
            let i = choose|i: int| 0 <= i < keys.len() && keys[i] == k;
            let ni = if i < pos { i } else { i - 1 };
            assert(nk[ni] == k);
        }
        if nk.to_set().contains(k) {
            let i = choose|i: int| 0 <= i < nk.len() && nk[i] == k;
            let oi = if i < pos { i } else { i + 1 };
            assert(keys[oi] == k);
            assert(keys.to_set().contains(k));
            if k == id {
                assert(keys[oi] == keys[pos]);
            }
        }
    }
    assert(nm.dom() =~= nk.to_set());
    assert forall|i: int| 0 <= i < nk.len() implies nm[#[trigger] nk[i]] == nv[i] by {
        let oi = if i < pos { i } else { i + 1 };
        assert(nk[i] == keys[oi]);
        assert(keys[oi] != keys[pos]);
        assert(m[keys[oi]] == vals[oi]);
    }
}

/// The ordered map from primary identifier to the fields of a document.
pub struct PrimaryMap {
    keys: Vec<Primary>,
    values: Vec<Vec<Field>>,
}

impl View for PrimaryMap {
    type V = Map<Primary, Seq<FieldValue>>;

    closed spec fn view(&self) -> Map<Primary, Seq<FieldValue>> {
        Map::new(
            |k: Primary| self.keys@.contains(k),
            |k: Primary| fields_view(self.values@[self.keys@.index_of(k)]@),
        )
    }
}

impl PrimaryMap {
    /// The map is well formed: its identifiers increase strictly.
    pub closed spec fn inv(&self) -> bool {
        &&& self.keys@.len() == self.values@.len()
        &&& increasing(self.keys@)
    }

    /// The identifiers of the stored documents, in increasing order.
    pub closed spec fn keys(&self) -> Seq<Primary> {
        self.keys@
    }

    /// The fields stored at each position of [`Self::keys`].
    pub closed spec fn values(&self) -> Seq<Seq<FieldValue>> {
        self.values@.map_values(|v: Vec<Field>| fields_view(v@))
    }

    /// How the identifiers and the fields at their positions relate to the
    /// view.
    pub proof fn lemma_keys(&self)
        requires
            self.inv(),
        ensures
            represents(self.keys(), self.values(), self@),
            self.keys().no_duplicates(),
            self@.dom().finite(),
    {
        lemma_increasing(self.keys@);
        assert(self@.dom() =~= self.keys@.to_set());
        vstd::seq_lib::seq_to_set_is_finite(self.keys@);
        assert forall|i: int| 0 <= i < self.keys@.len() implies self@[#[trigger] self.keys@[i]]
            == self.values()[i] by {
            let k = self.keys@[i];
            assert(self.keys@.contains(k));
            let j = self.keys@.index_of(k);
            assert(i == j);
        }
    }

    /// An empty map.
    pub fn new() -> (r: Self)
        ensures
            r.inv(),
            r@ == Map::<Primary, Seq<FieldValue>>::empty(),
            r.keys() == Seq::<Primary>::empty(),
    {
        let r = PrimaryMap { keys: Vec::new(), values: Vec::new() };
        assert(r@ =~= Map::<Primary, Seq<FieldValue>>::empty());
        r
    }

    /// The number of stored documents.
    pub fn len(&self) -> (r: usize)
        requires
            self.inv(),
        ensures
            r == self.keys().len(),
    {
        self.keys.len()
    }

    /// The identifier at position `pos` of the increasing order.
    pub fn key_at(&self, pos: usize) -> (r: Primary)
        requires
            self.inv(),
            pos < self.keys().len(),
        ensures
            r == self.keys()[pos as int],
    {
        self.keys[pos]
    }

    /// The fields of the document at position `pos` of the increasing order.
    pub fn value_at(&self, pos: usize) -> (r: &Vec<Field>)
        requires
            self.inv(),
            pos < self.keys().len(),
        ensures
            fields_view(r@) == self.values()[pos as int],
    {
        &self.values[pos]
    }

    /// The number of stored identifiers below `id`.
    fn position(&self, id: Primary) -> (r: usize)
        requires
            self.inv(),
        ensures
            r <= self.keys@.len(),
            forall|j: int| 0 <= j < r ==> self.keys@[j] < id,
            forall|j: int| r <= j < self.keys@.len() ==> self.keys@[j] >= id,
    {
        let mut lo: usize = 0;
        let mut hi: usize = self.keys.len();
        while lo < hi
            invariant
                lo <= hi <= self.keys@.len(),
                increasing(self.keys@),
                forall|j: int| 0 <= j < lo ==> self.keys@[j] < id,
                forall|j: int| hi <= j < self.keys@.len() ==> self.keys@[j] >= id,
            decreases hi - lo,
        {
            let mid: usize = lo + (hi - lo) / 2;
            if self.keys[mid] < id {
                lo = mid + 1;
            } else {
                hi = mid;
            }
        }
        lo
    }

    /// Whether a document is stored under `id`.
    pub fn contains(&self, id: Primary) -> (r: bool)
        requires
            self.inv(),
        ensures
            r == self@.contains_key(id),
    {
        let pos = self.position(id);
        proof {
            self.lemma_keys();
            if pos < self.keys@.len() && self.keys@[pos as int] == id {
                assert(self.keys().to_set().contains(id));
            } else if self@.contains_key(id) {
                let i = choose|i: int| 0 <= i < self.keys@.len() && self.keys@[i] == id;
                assert(false);
            }
        }
        pos < self.keys.len() && self.keys[pos] == id
    }

    /// The fields of the document stored under `id`, if there is one.
    pub fn get(&self, id: Primary) -> (r: Option<&Vec<Field>>)
        requires
            self.inv(),
        ensures
            match r {
                Some(fields) => self@.contains_key(id) && fields_view(fields@) == self@[id],
                None => !self@.contains_key(id),
            },
    {
        let pos = self.position(id);
        if pos < self.keys.len() && self.keys[pos] == id {
            proof {
                self.lemma_keys();
                assert(self.keys()[pos as int] == id);
                assert(self.keys().to_set().contains(id));
            }
            Some(&self.values[pos])
        } else {
            proof {
                self.lemma_keys();
                if self@.contains_key(id) {
                    let i = choose|i: int| 0 <= i < self.keys@.len() && self.keys@[i] == id;
                    assert(false);
                }
            }
            None
        }
    }

    /// Stores `fields` under `id` and hands back what was stored there.
    pub fn put(&mut self, id: Primary, fields: Vec<Field>) -> (r: Option<Vec<Field>>)
        requires
            old(self).inv(),
        ensures
            final(self).inv(),
            final(self)@ == old(self)@.insert(id, fields_view(fields@)),
            match r {
                Some(prev) => old(self)@.contains_key(id) && fields_view(prev@) == old(self)@[id],
                None => !old(self)@.contains_key(id),
            },
    {
        let pos = self.position(id);
        let ghost fv = fields_view(fields@);
        proof {
            old(self).lemma_keys();
        }
        if pos < self.keys.len() && self.keys[pos] == id {
            let mut fields = fields;
            std::mem::swap(&mut self.values[pos], &mut fields);
            proof {
                lemma_represents_update(
                    old(self).keys(),
                    old(self).values(),
                    old(self)@,
                    pos as int,
                    fv,
                );
                assert(self.values() =~= old(self).values().update(pos as int, fv));
                self.lemma_keys();
                lemma_represents_unique(
                    self.keys(),
                    self.values(),
                    self@,
                    old(self)@.insert(id, fv),
                );
            }
            Some(fields)
        } else {
            self.keys.insert(pos, id);
            self.values.insert(pos, fields);
            proof {
                lemma_represents_insert(
                    old(self).keys(),
                    old(self).values(),
                    old(self)@,
                    pos as int,
                    id,
                    fv,
                );
                assert(self.keys() == old(self).keys().insert(pos as int, id));
                assert(self.values() =~= old(self).values().insert(pos as int, fv));
                self.lemma_keys();
                lemma_represents_unique(
                    self.keys(),
                    self.values(),
                    self@,
                    old(self)@.insert(id, fv),
                );
            }
            None
        }
    }

    /// Removes the document stored under `id` and hands back its fields.
    pub fn del_key(&mut self, id: Primary) -> (r: Option<Vec<Field>>)
        requires
            old(self).inv(),
        ensures
            final(self).inv(),
            final(self)@ == old(self)@.remove(id),
            match r {
                Some(prev) => old(self)@.contains_key(id) && fields_view(prev@) == old(self)@[id],
                None => !old(self)@.contains_key(id),
            },
    {
        let pos = self.position(id);
        proof {
            old(self).lemma_keys();
        }
        if pos < self.keys.len() && self.keys[pos] == id {
            self.keys.remove(pos);
            let prev = self.values.remove(pos);
            proof {
                lemma_represents_remove(
                    old(self).keys(),
                    old(self).values(),
                    old(self)@,
                    pos as int,
                );
                assert(self.keys() == old(self).keys().remove(pos as int));
                assert(self.values() =~= old(self).values().remove(pos as int));
                self.lemma_keys();
                lemma_represents_unique(
                    self.keys(),
                    self.values(),
                    self@,
                    old(self)@.remove(id),
                );
            }
            Some(prev)
        } else {
            proof {
                if old(self)@.contains_key(id) {
                    let i = choose|i: int| 0 <= i < self.keys@.len() && self.keys@[i] == id;
                    assert(false);
                }
                assert(self@ =~= old(self)@.remove(id));
            }
            None
        }
    }

    /// Removes every document.
    pub fn clear(&mut self)
        ensures
            final(self).inv(),
            final(self)@ == Map::<Primary, Seq<FieldValue>>::empty(),
            final(self).keys() == Seq::<Primary>::empty(),
    {
        self.keys.clear();
        self.values.clear();
        assert(final(self)@ =~= Map::<Primary, Seq<FieldValue>>::empty());
    }

    /// The greatest stored identifier, if any document is stored.
    pub fn last_key(&self) -> (r: Option<Primary>)
        requires
            self.inv(),
        ensures
            match r {
                Some(k) => self.keys().len() > 0 && k == self.keys().last(),
                None => self.keys().len() == 0,
            },
    {
        let n = self.keys.len();
        if n == 0 {
            None
        } else {
            Some(self.keys[n - 1])
        }
    }
}

/// Where a cursor over the primary map stands.
#[derive(Clone, Copy, Debug, PartialEq, Eq, Structural)]
pub enum CursorState {
    /// Nothing was asked of the cursor yet.
    Uninitialized,
    /// The cursor stands on the entry at this position of the increasing order.
    Positioned(usize),
    /// The cursor has left the map.
    Exhausted,
}

/// A forward or backward walk over the identifiers of a primary map.
pub struct PrimaryIterator<'a> {
    map: &'a PrimaryMap,
    order: OrderKind,
    state: CursorState,
}

impl<'a> PrimaryIterator<'a> {
    /// The walk is well formed: it stands inside a well-formed map.
    pub closed spec fn inv(&self) -> bool {
        &&& self.map.inv()
        &&& self.state matches CursorState::Positioned(p) ==> p < self.map.keys().len()
    }

    /// Where the walk stands.
    pub closed spec fn state(&self) -> CursorState {
        self.state
    }

    /// The identifiers that the walk has yet to yield, in the order in
    /// which it will yield them.
    pub closed spec fn remaining(&self) -> Seq<Primary> {
        let keys = self.map.keys();
        match self.state {
            CursorState::Uninitialized => ordered(keys, self.order),
            CursorState::Positioned(p) => match self.order {
                OrderKind::Asc => keys.subrange(p + 1, keys.len() as int),
                OrderKind::Desc => keys.subrange(0, p as int).reverse(),
            },
            CursorState::Exhausted => Seq::empty(),
        }
    }

    /// A walk over `map` in the direction `order` that has not begun.
    pub fn new(map: &'a PrimaryMap, order: OrderKind) -> (r: Self)
        requires
            map.inv(),
        ensures
            r.inv(),
            r.state() == CursorState::Uninitialized,
            r.remaining() == ordered(map.keys(), order),
    {
        PrimaryIterator { map, order, state: CursorState::Uninitialized }
    }

    /// Moves the walk on by one entry and yields its identifier. The first
    /// call goes to the first entry of the direction, each later call to
    /// the neighbour of the entry before; past the last entry the walk is
    /// exhausted and stays so.
    pub fn next(&mut self) -> (r: Option<Primary>)
        requires
            old(self).inv(),
        ensures
            final(self).inv(),
            old(self).remaining().len() > 0 ==> r == Some(old(self).remaining()[0])
                && final(self).remaining() == old(self).remaining().drop_first()
                && final(self).state() is Positioned,
            old(self).remaining().len() == 0 ==> r is None && final(self).remaining().len() == 0
                && final(self).state() == CursorState::Exhausted,
    {
        let n = self.map.len();
        let target: Option<usize> = match self.state {
            CursorState::Uninitialized => {
                if n == 0 {
                    None
                } else {
                    match self.order {
                        OrderKind::Asc => Some(0),
                        OrderKind::Desc => Some(n - 1),
                    }
                }
            },
            CursorState::Positioned(p) => match self.order {
                OrderKind::Asc => if p + 1 < n {
                    Some(p + 1)
                } else {
                    None
                },
                OrderKind::Desc => if p > 0 {
                    Some(p - 1)
                } else {
                    None
                },
            },
            CursorState::Exhausted => None,
        };
        match target {
            Some(p) => {
                self.state = CursorState::Positioned(p);
                proof {
                    let keys = self.map.keys();
                    assert(old(self).remaining()[0] == keys[p as int]);
                    assert(final(self).remaining() =~= old(self).remaining().drop_first());
                }
                Some(self.map.key_at(p))
            },
            None => {
                self.state = CursorState::Exhausted;
                None
            },
        }
    }

    /// Walks to the end and gathers what the walk yields.
    pub fn collect(self) -> (r: Vec<Primary>)
        requires
            self.inv(),
        ensures
            r@ == self.remaining(),
    {
        let mut it = self;
        let mut out: Vec<Primary> = Vec::new();
        loop
            invariant_except_break
                it.inv(),
                out@ + it.remaining() == self.remaining(),
            ensures
                out@ == self.remaining(),
            decreases it.remaining().len(),
        {
            let ghost before = it.remaining();
            match it.next() {
                Some(id) => {
                    out.push(id);
                    assert(out@ + it.remaining() =~= out@.drop_last() + before);
                },
                None => {
                    assert(out@ + before =~= out@);
                    break ;
                },
            }
        }
        out
    }
}

} // verus!
