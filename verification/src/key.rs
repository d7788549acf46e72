//! Index keys: the scalar values of document fields, and their total order.

use vstd::prelude::*;

use crate::types::KeyType;
use crate::types::Primary;

verus! {

/// A scalar value of a document field, as an index holds it.
///
/// A floating-point number is held as the unsigned integer whose order is
/// the number's order; the caller encodes and decodes it.
#[derive(Debug, PartialEq, Eq)]
pub enum KeyData {
    Int(i64),
    UInt(u64),
    Float(u64),
    String(String),
    Bool(bool),
}

/// The mathematical value of a [`KeyData`].
pub enum KeyValue {
    Int(i64),
    UInt(u64),
    Float(u64),
    String(Seq<char>),
    Bool(bool),
}

impl View for KeyData {
    type V = KeyValue;

    open spec fn view(&self) -> KeyValue {
        match self {
            KeyData::Int(v) => KeyValue::Int(*v),
            KeyData::UInt(v) => KeyValue::UInt(*v),
            KeyData::Float(v) => KeyValue::Float(*v),
            KeyData::String(v) => KeyValue::String(v@),
            KeyData::Bool(v) => KeyValue::Bool(*v),
        }
    }
}

/// Lexicographic order of two byte strings, compared from position `i` on.
pub open spec fn bytes_lt_from(a: Seq<u8>, b: Seq<u8>, i: int) -> bool
    decreases a.len() - i,
{
    if i < 0 || i >= b.len() {
        false
    } else if i >= a.len() {
        true
    } else if a[i] != b[i] {
        a[i] < b[i]
    } else {
        bytes_lt_from(a, b, i + 1)
    }
}

/// Lexicographic order of two byte strings.
pub open spec fn bytes_lt(a: Seq<u8>, b: Seq<u8>) -> bool {
    bytes_lt_from(a, b, 0)
}

impl KeyValue {
    /// The type tag of the value.
    pub open spec fn kind(self) -> KeyType {
        match self {
            KeyValue::Int(_) => KeyType::Int,
            KeyValue::UInt(_) => KeyType::UInt,
            KeyValue::Float(_) => KeyType::Float,
            KeyValue::String(_) => KeyType::String,
            KeyValue::Bool(_) => KeyType::Bool,
        }
    }

    /// The place of the value's type among the types.
    pub open spec fn rank(self) -> int {
        match self {
            KeyValue::Int(_) => 0,
            KeyValue::UInt(_) => 1,
            KeyValue::Float(_) => 2,
            KeyValue::String(_) => 3,
            KeyValue::Bool(_) => 4,
        }
    }

    /// The strict total order of keys: by type first, then numerically,
    /// `false` before `true`, and strings by their UTF-8 bytes.
    pub open spec fn lt(self, other: KeyValue) -> bool {
        match (self, other) {
            (KeyValue::Int(a), KeyValue::Int(b)) => a < b,
            (KeyValue::UInt(a), KeyValue::UInt(b)) => a < b,
            (KeyValue::Float(a), KeyValue::Float(b)) => a < b,
            (KeyValue::String(a), KeyValue::String(b)) => bytes_lt(
                vstd::utf8::encode_utf8(a),
                vstd::utf8::encode_utf8(b),
            ),
            (KeyValue::Bool(a), KeyValue::Bool(b)) => !a && b,
            _ => self.rank() < other.rank(),
        }
    }
}

/// The order of index entries: by key, then by primary identifier.
pub open spec fn entry_lt(a: (KeyValue, Primary), b: (KeyValue, Primary)) -> bool {
    a.0.lt(b.0) || (a.0 == b.0 && a.1 < b.1)
}

/// No two byte strings precede each other from a position on.
pub proof fn lemma_bytes_lt_asymmetric(a: Seq<u8>, b: Seq<u8>, i: int)
    requires
        0 <= i,
    ensures
        !(bytes_lt_from(a, b, i) && bytes_lt_from(b, a, i)),
    decreases a.len() - i,
{
    if i < a.len() && i < b.len() && a[i] == b[i] {
        lemma_bytes_lt_asymmetric(a, b, i + 1);
    }
}

/// Of two different byte strings that agree up to a position, one
/// precedes the other from there on.
pub proof fn lemma_bytes_lt_total(a: Seq<u8>, b: Seq<u8>, i: int)
    requires
        0 <= i <= a.len(),
        i <= b.len(),
        forall|j: int| 0 <= j < i ==> a[j] == b[j],
    ensures
        bytes_lt_from(a, b, i) || bytes_lt_from(b, a, i) || a == b,
    decreases a.len() - i,
{
    if i < a.len() && i < b.len() {
        if a[i] == b[i] {
            lemma_bytes_lt_total(a, b, i + 1);
        }
    } else if i == a.len() && i == b.len() {
        assert(a =~= b);
    }
}

/// The order of byte strings from a position on is transitive.
pub proof fn lemma_bytes_lt_transitive(a: Seq<u8>, b: Seq<u8>, c: Seq<u8>, i: int)
    requires
        0 <= i,
        bytes_lt_from(a, b, i),
        bytes_lt_from(b, c, i),
    ensures
        bytes_lt_from(a, c, i),
    decreases a.len() - i,
{
    if i < a.len() && a[i] == b[i] && b[i] == c[i] {
        lemma_bytes_lt_transitive(a, b, c, i + 1);
    }
}

/// Two strings with the same UTF-8 bytes are the same string.
pub proof fn lemma_utf8_injective(a: Seq<char>, b: Seq<char>)
    requires
        vstd::utf8::encode_utf8(a) == vstd::utf8::encode_utf8(b),
    ensures
        a == b,
{
    vstd::utf8::encode_utf8_decode_utf8(a);
    vstd::utf8::encode_utf8_decode_utf8(b);
}

/// No key precedes itself, and no two keys precede each other.
pub proof fn lemma_key_lt_asymmetric(a: KeyValue, b: KeyValue)
    ensures
        !(a.lt(b) && b.lt(a)),
        !a.lt(a),
{
    match (a, b) {
        (KeyValue::String(x), KeyValue::String(y)) => {
            lemma_bytes_lt_asymmetric(
                vstd::utf8::encode_utf8(x),
                vstd::utf8::encode_utf8(y),
                0,
            );
        },
        _ => {},
    }
    match a {
        KeyValue::String(x) => {
            lemma_bytes_lt_asymmetric(
                vstd::utf8::encode_utf8(x),
                vstd::utf8::encode_utf8(x),
                0,
            );
        },
        _ => {},
    }
}

/// Of two different keys one precedes the other.
pub proof fn lemma_key_lt_total(a: KeyValue, b: KeyValue)
    ensures
        a.lt(b) || b.lt(a) || a == b,
{
    match (a, b) {
        (KeyValue::String(x), KeyValue::String(y)) => {
            let ex = vstd::utf8::encode_utf8(x);
            let ey = vstd::utf8::encode_utf8(y);
            lemma_bytes_lt_total(ex, ey, 0);
            if ex == ey {
                lemma_utf8_injective(x, y);
            }
        },
        _ => {},
    }
}

/// The order of keys is transitive.
pub proof fn lemma_key_lt_transitive(a: KeyValue, b: KeyValue, c: KeyValue)
    requires
        a.lt(b),
        b.lt(c),
    ensures
        a.lt(c),
{
    match (a, b, c) {
        (KeyValue::String(x), KeyValue::String(y), KeyValue::String(z)) => {
            lemma_bytes_lt_transitive(
                vstd::utf8::encode_utf8(x),
                vstd::utf8::encode_utf8(y),
                vstd::utf8::encode_utf8(z),
                0,
            );
        },
        _ => {},
    }
}

/// The order of index entries is a strict total order.
pub proof fn lemma_entry_lt_strict_total(
    a: (KeyValue, Primary),
    b: (KeyValue, Primary),
    c: (KeyValue, Primary),
)
    ensures
        !entry_lt(a, a),
        !(entry_lt(a, b) && entry_lt(b, a)),
        entry_lt(a, b) || entry_lt(b, a) || a == b,
        entry_lt(a, b) && entry_lt(b, c) ==> entry_lt(a, c),
{
    lemma_key_lt_asymmetric(a.0, b.0);
    lemma_key_lt_asymmetric(b.0, a.0);
    lemma_key_lt_total(a.0, b.0);
    if entry_lt(a, b) && entry_lt(b, c) {
        lemma_key_lt_asymmetric(b.0, c.0);
        if a.0.lt(b.0) && b.0.lt(c.0) {
            lemma_key_lt_transitive(a.0, b.0, c.0);
        }
    }
}

fn bytes_less(a: &[u8], b: &[u8]) -> (r: bool)
    ensures
        r == bytes_lt(a@, b@),
{
    let mut i: usize = 0;
    while i < a.len() && i < b.len()
        invariant
            i <= a.len(),
            i <= b.len(),
            bytes_lt(a@, b@) == bytes_lt_from(a@, b@, i as int),
        decreases a.len() - i,
    {
        if a[i] != b[i] {
            return a[i] < b[i];
        }
        i = i + 1;
    }
    i < b.len()
}

impl KeyData {
    /// The type tag of the key.
    pub fn kind(&self) -> (r: KeyType)
        ensures
            r == self@.kind(),
    {
        match self {
            KeyData::Int(_) => KeyType::Int,
            KeyData::UInt(_) => KeyType::UInt,
            KeyData::Float(_) => KeyType::Float,
            KeyData::String(_) => KeyType::String,
            KeyData::Bool(_) => KeyType::Bool,
        }
    }

    /// Whether two keys are the same value.
    pub fn same(&self, other: &KeyData) -> (r: bool)
        ensures
            r == (self@ == other@),
    {
        match (self, other) {
            (KeyData::Int(a), KeyData::Int(b)) => *a == *b,
            (KeyData::UInt(a), KeyData::UInt(b)) => *a == *b,
            (KeyData::Float(a), KeyData::Float(b)) => *a == *b,
            (KeyData::String(a), KeyData::String(b)) => *a == *b,
            (KeyData::Bool(a), KeyData::Bool(b)) => *a == *b,
            _ => false,
        }
    }

    fn rank(&self) -> (r: u8)
        ensures
            r == self@.rank(),
    {
        match self {
            KeyData::Int(_) => 0,
            KeyData::UInt(_) => 1,
            KeyData::Float(_) => 2,
            KeyData::String(_) => 3,
            KeyData::Bool(_) => 4,
        }
    }

    /// Whether this key precedes the other in the order of keys.
    pub fn less(&self, other: &KeyData) -> (r: bool)
        ensures
            r == self@.lt(other@),
    {
        match (self, other) {
            (KeyData::Int(a), KeyData::Int(b)) => *a < *b,
            (KeyData::UInt(a), KeyData::UInt(b)) => *a < *b,
            (KeyData::Float(a), KeyData::Float(b)) => *a < *b,
            (KeyData::String(a), KeyData::String(b)) => bytes_less(
                a.as_str().as_bytes(),
                b.as_str().as_bytes(),
            ),
            (KeyData::Bool(a), KeyData::Bool(b)) => !*a && *b,
            _ => self.rank() < other.rank(),
        }
    }
}

impl Clone for KeyData {
    fn clone(&self) -> (r: Self)
        ensures
            r == *self,
    {
        match self {
            KeyData::Int(v) => KeyData::Int(*v),
            KeyData::UInt(v) => KeyData::UInt(*v),
            KeyData::Float(v) => KeyData::Float(*v),
            KeyData::String(v) => KeyData::String(v.clone()),
            KeyData::Bool(v) => KeyData::Bool(*v),
        }
    }
}

} // verus!
