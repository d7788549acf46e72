//! The plain vocabulary of the library: identifiers, index descriptors and
//! query orderings.

use vstd::prelude::*;

verus! {

/// The identifier of a document inside its collection. `0` stands for
/// "no document": no stored document has it.
pub type Primary = u64;

/// The number that tells one collection or index definition from another.
pub type Serial = u64;

/// Whether an index admits one document per key or many.
#[derive(Clone, Copy, Debug, PartialEq, Eq, Structural)]
pub enum IndexKind {
    Unique,
    NonUnique,
}

/// The type tag of the keys that an index holds.
#[derive(Clone, Copy, Debug, PartialEq, Eq, Structural)]
pub enum KeyType {
    Int,
    UInt,
    Float,
    String,
    Bool,
}

/// The direction of an ordered scan.
#[derive(Clone, Copy, Debug, PartialEq, Eq, Structural)]
pub enum OrderKind {
    Asc,
    Desc,
}

impl Default for OrderKind {
    fn default() -> (r: Self)
        ensures
            r == OrderKind::Asc,
    {
        OrderKind::Asc
    }
}

/// How the documents that a query finds are ordered.
#[derive(Debug, PartialEq, Eq)]
pub enum Order {
    /// By primary identifier.
    Primary(OrderKind),
    /// By the keys of the index on the given field path.
    Field(String, OrderKind),
}

impl Default for Order {
    fn default() -> (r: Self)
        ensures
            r == Order::Primary(OrderKind::Asc),
    {
        Order::Primary(OrderKind::Asc)
    }
}

/// Why an operation was refused.
#[derive(Debug, PartialEq, Eq)]
pub enum CollectionError {
    /// The storage cannot do what the operation asks of it: the document
    /// to fetch is gone, or no serial is left to hand out.
    Storage,
    /// A definition could not be put into its textual form.
    Serialization,
    /// A document that must carry a primary identifier carries none.
    MissingIdentifier,
    /// No index exists on the field path that the operation names.
    MissingIndex(String),
}

/// A definition that carries a serial.
pub trait Enumerable: Sized {
    /// The definition with its serial replaced.
    spec fn enumerated(self, serial: Serial) -> Self;

    /// Stamps the definition with a serial.
    fn enumerate(&mut self, serial: Serial)
        ensures
            *final(self) == old(self).enumerated(serial),
    ;
}

/// The identity of a collection: its serial and its name.
#[derive(Debug, PartialEq, Eq)]
pub struct CollectionDef(pub Serial, pub String);

impl CollectionDef {
    /// The definition of the collection `name`, not yet enumerated.
    pub fn new(name: &str) -> (r: Self)
        ensures
            r.0 == 0,
            r.1@ == name@,
    {
        CollectionDef(0, name.to_owned())
    }
}

impl Enumerable for CollectionDef {
    open spec fn enumerated(self, serial: Serial) -> Self {
        CollectionDef(serial, self.1)
    }

    fn enumerate(&mut self, serial: Serial) {
        self.0 = serial;
    }
}

/// The mathematical value of a [`KeyField`].
pub struct KeyFieldValue {
    pub path: Seq<char>,
    pub kind: IndexKind,
    pub key: KeyType,
}

/// What a caller says of an index: the field path, the kind and the key type.
#[derive(Debug, PartialEq, Eq)]
pub struct KeyField {
    pub path: String,
    pub kind: IndexKind,
    pub key: KeyType,
}

impl View for KeyField {
    type V = KeyFieldValue;

    open spec fn view(&self) -> KeyFieldValue {
        KeyFieldValue { path: self.path@, kind: self.kind, key: self.key }
    }
}

impl KeyField {
    /// The description of an index on `path`.
    pub fn new(path: &str, kind: IndexKind, key: KeyType) -> (r: Self)
        ensures
            r@ == (KeyFieldValue { path: path@, kind, key }),
    {
        KeyField { path: path.to_owned(), kind, key }
    }
}

/// The index descriptions of a collection or of a document type.
pub type KeyFields = Vec<KeyField>;

/// The mathematical value of a list of index descriptions.
pub open spec fn key_fields_view(fields: Seq<KeyField>) -> Seq<KeyFieldValue> {
    fields.map_values(|f: KeyField| f@)
}

/// Whether the error says that the index on `path` is missing.
pub open spec fn is_missing_index(e: CollectionError, path: Seq<char>) -> bool {
    e matches CollectionError::MissingIndex(p) && p@ == path
}

/// The mathematical value of an [`IndexDef`].
pub struct IndexDefValue {
    pub serial: Serial,
    pub coll: Seq<char>,
    pub path: Seq<char>,
    pub kind: IndexKind,
    pub key: KeyType,
}

impl IndexDefValue {
    /// What the definition says of its index to a caller.
    pub open spec fn field(self) -> KeyFieldValue {
        KeyFieldValue { path: self.path, kind: self.kind, key: self.key }
    }
}

/// The definition of an index: its serial, the collection it belongs to,
/// the field path it covers, its kind and the type of its keys.
#[derive(Debug, PartialEq, Eq)]
pub struct IndexDef {
    pub serial: Serial,
    pub coll: String,
    pub path: String,
    pub kind: IndexKind,
    pub key: KeyType,
}

impl View for IndexDef {
    type V = IndexDefValue;

    open spec fn view(&self) -> IndexDefValue {
        IndexDefValue {
            serial: self.serial,
            coll: self.coll@,
            path: self.path@,
            kind: self.kind,
            key: self.key,
        }
    }
}

impl IndexDef {
    /// The definition of an index, not yet enumerated.
    pub fn new(coll: &str, path: &str, kind: IndexKind, key: KeyType) -> (r: Self)
        ensures
            r@ == (IndexDefValue { serial: 0, coll: coll@, path: path@, kind, key }),
    {
        IndexDef { serial: 0, coll: coll.to_owned(), path: path.to_owned(), kind, key }
    }
}

impl Enumerable for IndexDef {
    open spec fn enumerated(self, serial: Serial) -> Self {
        IndexDef { serial, ..self }
    }

    fn enumerate(&mut self, serial: Serial) {
        self.serial = serial;
    }
}

impl Clone for IndexDef {
    fn clone(&self) -> (r: Self)
        ensures
            r == *self,
    {
        IndexDef {
            serial: self.serial,
            coll: self.coll.clone(),
            path: self.path.clone(),
            kind: self.kind,
            key: self.key,
        }
    }
}

/// The enumerator of serials that the collections and indexes of one
/// environment share.
pub struct Storage {
    last: Serial,
}

impl Storage {
    /// The last serial that was handed out; `0` when none was.
    pub closed spec fn last_serial(&self) -> Serial {
        self.last
    }

    /// An enumerator that has handed out nothing.
    pub fn new() -> (r: Self)
        ensures
            r.last_serial() == 0,
    {
        Storage { last: 0 }
    }

    /// An enumerator that goes on after `last`.
    pub fn resume(last: Serial) -> (r: Self)
        ensures
            r.last_serial() == last,
    {
        Storage { last }
    }

    /// Whether another serial can be handed out.
    pub fn has_room(&self) -> (r: bool)
        ensures
            r == (self.last_serial() < u64::MAX),
    {
        self.last < u64::MAX
    }

    /// Whether `count` more serials can be handed out.
    pub fn room_for(&self, count: usize) -> (r: bool)
        ensures
            r == (self.last_serial() + count <= u64::MAX),
    {
        count as u64 <= u64::MAX - self.last
    }

    /// Stamps `def` with the next serial.
    pub fn enumerate<E: Enumerable>(&mut self, def: E) -> (r: E)
        requires
            old(self).last_serial() < u64::MAX,
        ensures
            final(self).last_serial() == old(self).last_serial() + 1,
            r == def.enumerated(final(self).last_serial()),
    {
        self.last = self.last + 1;
        let mut def = def;
        def.enumerate(self.last);
        def
    }
}

} // verus!
