//! Documents: records of scalar fields addressed by dotted path.

use vstd::prelude::*;

use crate::key::KeyData;
use crate::key::KeyValue;
use crate::types::CollectionError;
use crate::types::KeyFields;
use crate::types::KeyType;
use crate::types::Primary;

verus! {

/// The mathematical value of a [`Field`].
pub struct FieldValue {
    pub path: Seq<char>,
    pub value: KeyValue,
}

/// One scalar of a document, under its dotted path. A path may occur more
/// than once in a document: that is how a list of scalars is held.
#[derive(Debug, PartialEq, Eq)]
pub struct Field {
    pub path: String,
    pub value: KeyData,
}

impl View for Field {
    type V = FieldValue;

    open spec fn view(&self) -> FieldValue {
        FieldValue { path: self.path@, value: self.value@ }
    }
}

impl Field {
    /// The field that holds `value` under `path`.
    pub fn new(path: &str, value: KeyData) -> (r: Self)
        ensures
            r@ == (FieldValue { path: path@, value: value@ }),
    {
        Field { path: path.to_owned(), value }
    }
}

impl Clone for Field {
    fn clone(&self) -> (r: Self)
        ensures
            r == *self,
    {
        Field { path: self.path.clone(), value: self.value.clone() }
    }
}

/// The mathematical value of a list of fields.
pub open spec fn fields_view(fields: Seq<Field>) -> Seq<FieldValue> {
    fields.map_values(|f: Field| f@)
}

/// A copy of a list of fields.
pub fn clone_fields(fields: &Vec<Field>) -> (r: Vec<Field>)
    ensures
        r@ == fields@,
{
    let mut out: Vec<Field> = Vec::new();
    let mut i: usize = 0;
    while i < fields.len()
        invariant
            i <= fields.len(),
            out@ == fields@.take(i as int),
        decreases fields.len() - i,
    {
        out.push(fields[i].clone());
        assert(fields@.take(i + 1) == fields@.take(i as int).push(fields@[i as int]));
        i = i + 1;
    }
    assert(fields@.take(fields.len() as int) == fields@);
    out
}

/// The keys that an index on `path` with keys of type `key` draws from a
/// document: the values of that type under that path.
pub open spec fn doc_keys(fields: Seq<FieldValue>, path: Seq<char>, key: KeyType) -> Set<KeyValue> {
    Set::new(|k: KeyValue| k.kind() == key && fields.contains(FieldValue { path, value: k }))
}

/// The entries that such an index holds for the document `id`.
pub open spec fn doc_entries(
    id: Primary,
    fields: Seq<FieldValue>,
    path: Seq<char>,
    key: KeyType,
) -> Set<(KeyValue, Primary)> {
    Set::new(|e: (KeyValue, Primary)| e.1 == id && doc_keys(fields, path, key).contains(e.0))
}

/// The mathematical value of a [`RawDocument`].
pub struct DocValue {
    pub id: Option<Primary>,
    pub fields: Seq<FieldValue>,
}

/// A document as the collection stores it: its fields, and its primary
/// identifier once it has one.
#[derive(Debug, PartialEq, Eq)]
pub struct RawDocument {
    pub id: Option<Primary>,
    pub fields: Vec<Field>,
}

impl View for RawDocument {
    type V = DocValue;

    open spec fn view(&self) -> DocValue {
        DocValue { id: self.id, fields: fields_view(self.fields@) }
    }
}

impl RawDocument {
    /// A document without an identifier.
    pub fn new(fields: Vec<Field>) -> (r: Self)
        ensures
            r.id is None,
            r.fields == fields,
    {
        RawDocument { id: None, fields }
    }

    /// The same document under the identifier `id`.
    pub fn with_id(self, id: Primary) -> (r: Self)
        ensures
            r.id == Some(id),
            r.fields == self.fields,
    {
        RawDocument { id: Some(id), fields: self.fields }
    }

    /// Whether the document carries an identifier.
    pub fn has_id(&self) -> (r: bool)
        ensures
            r == (self.id is Some),
    {
        self.id.is_some()
    }

    /// The identifier of the document, if it has one.
    pub fn get_id(&self) -> (r: Option<Primary>)
        ensures
            r == self.id,
    {
        self.id
    }

    /// The identifier of the document, which must have one.
    pub fn req_id(&self) -> (r: Result<Primary, CollectionError>)
        ensures
            match self.id {
                Some(id) => r == Ok::<Primary, CollectionError>(id),
                None => r == Err::<Primary, CollectionError>(CollectionError::MissingIdentifier),
            },
    {
        match self.id {
            Some(id) => Ok(id),
            None => Err(CollectionError::MissingIdentifier),
        }
    }

    /// The fields of the document, without its identifier.
    pub fn into_inner(self) -> (r: Vec<Field>)
        ensures
            r == self.fields,
    {
        self.fields
    }
}

impl Clone for RawDocument {
    fn clone(&self) -> (r: Self)
        ensures
            r.id == self.id,
            r.fields@ == self.fields@,
    {
        RawDocument { id: self.id, fields: clone_fields(&self.fields) }
    }
}

/// A type of documents that says which of its fields are indexed.
pub trait Document {
    /// The indexes that a collection of such documents keeps.
    fn key_fields() -> KeyFields;
}

/// The fields of a document after `path` was set to `value`: what stood
/// under `path` is gone, and the new field stands last.
pub open spec fn fields_set(
    fields: Seq<FieldValue>,
    path: Seq<char>,
    value: KeyValue,
) -> Seq<FieldValue> {
    fields.filter(|f: FieldValue| f.path != path).push(FieldValue { path, value })
}

/// A change to a document: one field set to a value.
#[derive(Debug, PartialEq, Eq)]
pub struct Modify {
    pub path: String,
    pub value: KeyData,
}

impl Modify {
    /// The change that sets the field under `path` to `value`.
    pub fn set(path: &str, value: KeyData) -> (r: Self)
        ensures
            r.path@ == path@,
            r.value == value,
    {
        Modify { path: path.to_owned(), value }
    }

    /// What the change makes of a document with the given fields.
    pub open spec fn applied(&self, fields: Seq<FieldValue>) -> Seq<FieldValue> {
        fields_set(fields, self.path@, self.value@)
    }

    /// Applies the change to the fields of a document.
    pub fn apply(&self, fields: Vec<Field>) -> (r: Vec<Field>)
        ensures
            fields_view(r@) == self.applied(fields_view(fields@)),
    {
        let ghost keep = |f: FieldValue| f.path != self.path@;
        let ghost all = fields_view(fields@);
        let mut out: Vec<Field> = Vec::new();
        let mut i: usize = 0;
        proof {
            reveal(Seq::filter);
            assert(all.take(0) == Seq::<FieldValue>::empty());
        }
        while i < fields.len()
            invariant
                i <= fields.len(),
                all == fields_view(fields@),
                keep == |f: FieldValue| f.path != self.path@,
                fields_view(out@) == all.take(i as int).filter(keep),
            decreases fields.len() - i,
        {
            proof {
                assert(all.take(i + 1) == all.take(i as int).push(all[i as int]));
                all.take(i as int).lemma_filter_push(all[i as int], keep);
            }
            if fields[i].path != self.path {
                let ghost before = out@;
                out.push(fields[i].clone());
                assert(fields_view(out@) == fields_view(before).push(all[i as int]));
            }
            i = i + 1;
        }
        proof {
            assert(all.take(fields.len() as int) == all);
        }
        let ghost before = out@;
        out.push(Field { path: self.path.clone(), value: self.value.clone() });
        assert(fields_view(out@) == fields_view(before).push(
            FieldValue { path: self.path@, value: self.value@ },
        ));
        out
    }
}

} // verus!
