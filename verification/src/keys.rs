//! Keys, records and the error taxonomy of the engine.
//!
//! A `Key` is a closed, tagged union of key representations; every index
//! uses exactly one variant for all of its entries.  Keys of one variant are
//! totally ordered: numerically for the integer variants, lexicographically
//! by character for text.

use vstd::prelude::*;
use vstd::string::StrSliceExecFns;

verus! {

/// The mathematical value of a `Key`.
pub enum KeyV {
    Short(int),
    Int(int),
    Text(Seq<char>),
}

/// A typed key: 32-bit signed, 64-bit signed, or UTF-8 text.
#[derive(Debug, PartialEq, Eq, Hash)]
pub enum Key {
    Short(i32),
    Int(i64),
    Varchar(String),
}

impl View for Key {
    type V = KeyV;

    open spec fn view(&self) -> KeyV {
        match self {
            Key::Short(x) => KeyV::Short(*x as int),
            Key::Int(x) => KeyV::Int(*x as int),
            Key::Varchar(s) => KeyV::Text(s@),
        }
    }
}

impl Clone for Key {
    fn clone(&self) -> (res: Self)
        ensures
            res@ == self@,
    {
        match self {
            Key::Short(x) => Key::Short(*x),
            Key::Int(x) => Key::Int(*x),
            Key::Varchar(s) => Key::Varchar(s.clone()),
        }
    }
}

/// Two key values carry the same variant tag.
pub open spec fn same_variant(a: KeyV, b: KeyV) -> bool {
    match (a, b) {
        (KeyV::Short(_), KeyV::Short(_)) => true,
        (KeyV::Int(_), KeyV::Int(_)) => true,
        (KeyV::Text(_), KeyV::Text(_)) => true,
        _ => false,
    }
}

/// Strict lexicographic order on character sequences.
pub open spec fn lex_lt(a: Seq<char>, b: Seq<char>) -> bool
    decreases a.len(),
{
    if b.len() == 0 {
        false
    } else if a.len() == 0 {
        true
    } else if (a[0] as int) < (b[0] as int) {
        true
    } else if (a[0] as int) > (b[0] as int) {
        false
    } else {
        lex_lt(a.drop_first(), b.drop_first())
    }
}

/// Strict order on key values of one variant; never holds across variants.
pub open spec fn key_lt_v(a: KeyV, b: KeyV) -> bool {
    match (a, b) {
        (KeyV::Short(x), KeyV::Short(y)) => x < y,
        (KeyV::Int(x), KeyV::Int(y)) => x < y,
        (KeyV::Text(x), KeyV::Text(y)) => lex_lt(x, y),
        _ => false,
    }
}

pub proof fn lemma_lex_asym(a: Seq<char>, b: Seq<char>)
    ensures
        lex_lt(a, b) ==> !lex_lt(b, a) && a != b,
    decreases a.len(),
{
    if b.len() == 0 || a.len() == 0 {
    } else if (a[0] as int) == (b[0] as int) {
        lemma_lex_asym(a.drop_first(), b.drop_first());
        if lex_lt(a, b) {
            assert(a.drop_first() != b.drop_first() ==> a != b);
        }
    }
}

pub proof fn lemma_lex_connected(a: Seq<char>, b: Seq<char>)
    ensures
        !lex_lt(a, b) && !lex_lt(b, a) ==> a == b,
    decreases a.len(),
{
    if a.len() == 0 || b.len() == 0 {
        if !lex_lt(a, b) && !lex_lt(b, a) {
            assert(a.len() == 0 && b.len() == 0);
            assert(a =~= b);
        }
    } else if (a[0] as int) == (b[0] as int) {
        lemma_lex_connected(a.drop_first(), b.drop_first());
        if !lex_lt(a, b) && !lex_lt(b, a) {
            assert(a.drop_first() == b.drop_first());
            assert(a[0] == b[0]);
            assert forall|i: int| 0 <= i < a.len() implies a[i] == b[i] by {
                if i > 0 {
                    assert(a.drop_first()[i - 1] == b.drop_first()[i - 1]);
                }
            }
            assert(a =~= b);
        }
    }
}

pub proof fn lemma_lex_trans(a: Seq<char>, b: Seq<char>, c: Seq<char>)
    ensures
        lex_lt(a, b) && lex_lt(b, c) ==> lex_lt(a, c),
    decreases a.len(),
{
    if a.len() > 0 && b.len() > 0 && c.len() > 0 {
        lemma_lex_trans(a.drop_first(), b.drop_first(), c.drop_first());
    }
}

/// Asymmetry of the key order: a key is never below itself nor below a
/// smaller key.
pub proof fn lemma_key_lt_asym(a: KeyV, b: KeyV)
    ensures
        key_lt_v(a, b) ==> !key_lt_v(b, a) && a != b,
{
    match (a, b) {
        (KeyV::Text(x), KeyV::Text(y)) => lemma_lex_asym(x, y),
        _ => {},
    }
}

/// Totality of the key order within one variant: keys that neither order
/// strictly are equal.
pub proof fn lemma_key_lt_connected(a: KeyV, b: KeyV)
    requires
        same_variant(a, b),
    ensures
        !key_lt_v(a, b) && !key_lt_v(b, a) ==> a == b,
{
    match (a, b) {
        (KeyV::Text(x), KeyV::Text(y)) => lemma_lex_connected(x, y),
        _ => {},
    }
}

/// Transitivity of the key order.
pub proof fn lemma_key_lt_trans(a: KeyV, b: KeyV, c: KeyV)
    ensures
        key_lt_v(a, b) && key_lt_v(b, c) ==> key_lt_v(a, c),
{
    match (a, b) {
        (KeyV::Text(x), KeyV::Text(y)) => match c {
            KeyV::Text(z) => lemma_lex_trans(x, y, z),
            _ => {},
        },
        _ => {},
    }
}

/// Character-for-character string equality.
pub fn str_eq(a: &str, b: &str) -> (r: bool)
    ensures
        r == (a@ == b@),
{
    let alen = a.unicode_len();
    let blen = b.unicode_len();
    if alen != blen {
        return false;
    }
    let mut i: usize = 0;
    while i < alen
        invariant
            i <= alen,
            alen == a@.len(),
            alen == b@.len(),
            forall|j: int| 0 <= j < i ==> a@[j] == b@[j],
        decreases alen - i,
    {
        let ca = a.get_char(i);
        let cb = b.get_char(i);
        if ca != cb {
            return false;
        }
        i = i + 1;
    }
    proof {
        assert(a@ =~= b@);
    }
    true
}

/// Structural, variant-aware key equality.
pub fn key_eq(a: &Key, b: &Key) -> (r: bool)
    ensures
        r == (a@ == b@),
{
    match (a, b) {
        (Key::Short(x), Key::Short(y)) => *x == *y,
        (Key::Int(x), Key::Int(y)) => *x == *y,
        (Key::Varchar(x), Key::Varchar(y)) => x.eq(y),
        _ => false,
    }
}

/// Do the two keys carry the same variant tag?
pub fn variants_match(a: &Key, b: &Key) -> (r: bool)
    ensures
        r == same_variant(a@, b@),
{
    match (a, b) {
        (Key::Short(_), Key::Short(_)) => true,
        (Key::Int(_), Key::Int(_)) => true,
        (Key::Varchar(_), Key::Varchar(_)) => true,
        _ => false,
    }
}

fn text_lt(a: &String, b: &String) -> (r: bool)
    ensures
        r == lex_lt(a@, b@),
{
    let alen = a.as_str().unicode_len();
    let blen = b.as_str().unicode_len();
    let mut i: usize = 0;
    proof {
        assert(a@.skip(0) =~= a@);
        assert(b@.skip(0) =~= b@);
    }
    while i < alen && i < blen
        invariant
            i <= alen,
            i <= blen,
            alen == a@.len(),
            blen == b@.len(),
            lex_lt(a@, b@) == lex_lt(a@.skip(i as int), b@.skip(i as int)),
        decreases alen - i,
    {
        let ca = a.as_str().get_char(i);
        let cb = b.as_str().get_char(i);
        proof {
            assert(a@.skip(i as int)[0] == a@[i as int]);
            assert(b@.skip(i as int)[0] == b@[i as int]);
        }
        if (ca as u32) < (cb as u32) {
            return true;
        }
        if (ca as u32) > (cb as u32) {
            return false;
        }
        proof {
            assert(a@.skip(i as int).drop_first() =~= a@.skip(i + 1));
            assert(b@.skip(i as int).drop_first() =~= b@.skip(i + 1));
        }
        i = i + 1;
    }
    proof {
        assert(a@.skip(i as int).len() == 0 || b@.skip(i as int).len() == 0);
    }
    i < blen
}

/// Strict key order; `false` whenever the variants differ.
pub fn key_lt(a: &Key, b: &Key) -> (r: bool)
    ensures
        r == key_lt_v(a@, b@),
{
    match (a, b) {
        (Key::Short(x), Key::Short(y)) => *x < *y,
        (Key::Int(x), Key::Int(y)) => *x < *y,
        (Key::Varchar(x), Key::Varchar(y)) => text_lt(x, y),
        _ => false,
    }
}

/// An opaque byte-sequence value.
pub type Value = Vec<u8>;

/// The mathematical value of a `Record`.
pub struct RecordV {
    pub key: KeyV,
    pub value: Seq<u8>,
}

/// An immutable pairing of a key and an opaque byte-sequence value.
#[derive(Debug, PartialEq, Eq)]
pub struct Record {
    pub key: Key,
    pub value: Value,
}

impl View for Record {
    type V = RecordV;

    open spec fn view(&self) -> RecordV {
        RecordV { key: self.key@, value: self.value@ }
    }
}

impl Clone for Record {
    fn clone(&self) -> (res: Self)
        ensures
            res@ == self@,
    {
        Record { key: self.key.clone(), value: clone_value(&self.value) }
    }
}

/// Byte-for-byte copy of a value.
pub fn clone_value(v: &Value) -> (r: Value)
    ensures
        r@ == v@,
{
    let mut out: Vec<u8> = Vec::new();
    let mut i: usize = 0;
    while i < v.len()
        invariant
            i <= v.len(),
            out@ == v@.take(i as int),
        decreases v.len() - i,
    {
        out.push(v[i]);
        proof {
            assert(v@.take(i + 1) =~= v@.take(i as int).push(v@[i as int]));
        }
        i = i + 1;
    }
    proof {
        assert(v@.take(v@.len() as int) =~= v@);
    }
    out
}

/// The closed set of failure kinds of the engine.
#[derive(Debug, PartialEq, Eq, Clone, Copy)]
pub enum MemDBError {
    DatabaseExists,
    DatabaseDoesNotExist,
    TransactionExists,
    TransactionDoesNotExist,
    EntryExists,
    EntryDoesNotExist,
    Failure,
}

/// Either the requested value or exactly one error kind.
pub type MemDBResult<T> = Result<T, MemDBError>;

} // verus!
