//! The typed value model: a tagged union over the full set of BSON wire
//! types, its mathematical view, and the validity conditions encodable
//! values obey.

use vstd::prelude::*;
use vstd::utf8::valid_utf8;

verus! {

/// A BSON timestamp: seconds since the epoch plus an ordinal increment.
/// Ordered as the pair `(time, increment)`.
#[derive(Clone, Copy, PartialEq, Eq, Structural, Debug)]
pub struct Timestamp {
    pub time: u32,
    pub increment: u32,
}

/// A fully materialized BSON value.
///
/// Strings and keys are held as UTF-8 bytes, and a double is held as its
/// IEEE-754 bit pattern, so every wire value round-trips losslessly.
/// Identifiers and 128-bit decimals are held as raw bytes of fixed width
/// (see [`valid_bson`]).
#[derive(PartialEq, Eq, Debug)]
pub enum Bson {
    Double(u64),
    String(Vec<u8>),
    Document(Vec<(Vec<u8>, Bson)>),
    Array(Vec<Bson>),
    Binary(u8, Vec<u8>),
    Undefined,
    ObjectId(Vec<u8>),
    Boolean(bool),
    DateTime(i64),
    Null,
    Regex(Vec<u8>, Vec<u8>),
    DbPointer(Vec<u8>, Vec<u8>),
    JavaScriptCode(Vec<u8>),
    JavaScriptCodeWithScope(Vec<u8>, Vec<(Vec<u8>, Bson)>),
    Int32(i32),
    Timestamp(Timestamp),
    Int64(i64),
    Decimal128(Vec<u8>),
    MinKey,
    MaxKey,
}

/// The mathematical view of a [`Bson`] value: the same tree with every
/// byte vector replaced by a byte sequence. Contracts are stated over
/// this type.
pub enum BsonV {
    Double(u64),
    String(Seq<u8>),
    Document(Seq<(Seq<u8>, BsonV)>),
    Array(Seq<BsonV>),
    Binary(u8, Seq<u8>),
    Undefined,
    ObjectId(Seq<u8>),
    Boolean(bool),
    DateTime(i64),
    Null,
    Regex(Seq<u8>, Seq<u8>),
    DbPointer(Seq<u8>, Seq<u8>),
    JavaScriptCode(Seq<u8>),
    JavaScriptCodeWithScope(Seq<u8>, Seq<(Seq<u8>, BsonV)>),
    Int32(i32),
    Timestamp(Timestamp),
    Int64(i64),
    Decimal128(Seq<u8>),
    MinKey,
    MaxKey,
}

/// The view of one document entry list, from index `i` on.
pub open spec fn entries_view_from(entries: Seq<(Vec<u8>, Bson)>, i: int) -> Seq<(Seq<u8>, BsonV)>
    decreases entries, entries.len() - i,
{
    if i < 0 || i >= entries.len() {
        seq![]
    } else {
        seq![(entries[i].0@, bson_view(entries[i].1))] + entries_view_from(entries, i + 1)
    }
}

/// The view of an array's element list, from index `i` on.
pub open spec fn elems_view_from(elems: Seq<Bson>, i: int) -> Seq<BsonV>
    decreases elems, elems.len() - i,
{
    if i < 0 || i >= elems.len() {
        seq![]
    } else {
        seq![bson_view(elems[i])] + elems_view_from(elems, i + 1)
    }
}

/// The deep view of a typed value.
pub open spec fn bson_view(v: Bson) -> BsonV
    decreases v, 0int,
{
    match v {
        Bson::Double(bits) => BsonV::Double(bits),
        Bson::String(s) => BsonV::String(s@),
        Bson::Document(entries) => BsonV::Document(entries_view_from(entries@, 0)),
        Bson::Array(elems) => BsonV::Array(elems_view_from(elems@, 0)),
        Bson::Binary(subtype, b) => BsonV::Binary(subtype, b@),
        Bson::Undefined => BsonV::Undefined,
        Bson::ObjectId(b) => BsonV::ObjectId(b@),
        Bson::Boolean(b) => BsonV::Boolean(b),
        Bson::DateTime(ms) => BsonV::DateTime(ms),
        Bson::Null => BsonV::Null,
        Bson::Regex(p, o) => BsonV::Regex(p@, o@),
        Bson::DbPointer(ns, id) => BsonV::DbPointer(ns@, id@),
        Bson::JavaScriptCode(c) => BsonV::JavaScriptCode(c@),
        Bson::JavaScriptCodeWithScope(c, scope) => BsonV::JavaScriptCodeWithScope(
            c@,
            entries_view_from(scope@, 0),
        ),
        Bson::Int32(x) => BsonV::Int32(x),
        Bson::Timestamp(t) => BsonV::Timestamp(t),
        Bson::Int64(x) => BsonV::Int64(x),
        Bson::Decimal128(b) => BsonV::Decimal128(b@),
        Bson::MinKey => BsonV::MinKey,
        Bson::MaxKey => BsonV::MaxKey,
    }
}

impl View for Bson {
    type V = BsonV;

    open spec fn view(&self) -> BsonV {
        bson_view(*self)
    }
}

/// A valid element key or C-string payload: UTF-8 bytes that contain no
/// null byte, so a single null byte can terminate them on the wire.
pub open spec fn valid_cstring(s: Seq<u8>) -> bool {
    valid_utf8(s) && forall|i: int| 0 <= i < s.len() ==> s[i] != 0u8
}

/// Validity of every entry of a document, from index `i` on: keys are
/// C-strings and the values are themselves valid.
pub open spec fn valid_entries_from(entries: Seq<(Seq<u8>, BsonV)>, i: int) -> bool
    decreases entries, entries.len() - i,
{
    i >= entries.len() || (0 <= i && valid_cstring(entries[i].0) && valid_bson(entries[i].1)
        && valid_entries_from(entries, i + 1))
}

/// Validity of every element of an array, from index `i` on.
pub open spec fn valid_elems_from(elems: Seq<BsonV>, i: int) -> bool
    decreases elems, elems.len() - i,
{
    i >= elems.len() || (0 <= i && valid_bson(elems[i]) && valid_elems_from(elems, i + 1))
}

/// A representable typed value: strings hold UTF-8, C-string payloads
/// hold no null byte, identifiers hold exactly 12 bytes, decimals exactly
/// 16, and every child is itself valid.
pub open spec fn valid_bson(v: BsonV) -> bool
    decreases v, 0int,
{
    match v {
        BsonV::String(s) => valid_utf8(s),
        BsonV::Document(entries) => valid_entries_from(entries, 0),
        BsonV::Array(elems) => valid_elems_from(elems, 0),
        BsonV::ObjectId(b) => b.len() == 12,
        BsonV::Regex(p, o) => valid_cstring(p) && valid_cstring(o),
        BsonV::DbPointer(ns, id) => valid_utf8(ns) && id.len() == 12,
        BsonV::JavaScriptCode(c) => valid_utf8(c),
        BsonV::JavaScriptCodeWithScope(c, scope) => valid_utf8(c) && valid_entries_from(scope, 0),
        BsonV::Decimal128(b) => b.len() == 16,
        _ => true,
    }
}

/// Prepending a valid entry to a valid list keeps the list valid.
pub proof fn lemma_valid_entries_prepend(e: (Seq<u8>, BsonV), rest: Seq<(Seq<u8>, BsonV)>)
    requires
        valid_cstring(e.0),
        valid_bson(e.1),
        valid_entries_from(rest, 0),
    ensures
        valid_entries_from(seq![e] + rest, 0),
    decreases rest.len(),
{
    let whole = seq![e] + rest;
    assert(whole[0] == e);
    lemma_valid_entries_prepend_from(e, rest, 0);
}

/// Validity from an index shifts across a prepended entry.
pub proof fn lemma_valid_entries_prepend_from(e: (Seq<u8>, BsonV), rest: Seq<(Seq<u8>, BsonV)>, i: int)
    requires
        0 <= i,
        valid_entries_from(rest, i),
    ensures
        valid_entries_from(seq![e] + rest, i + 1),
    decreases rest.len() - i,
{
    let whole = seq![e] + rest;
    if i < rest.len() {
        assert(whole[i + 1] == rest[i]);
        lemma_valid_entries_prepend_from(e, rest, i + 1);
    }
}

/// Prepending a valid element to a valid list keeps the list valid.
pub proof fn lemma_valid_elems_prepend(e: BsonV, rest: Seq<BsonV>)
    requires
        valid_bson(e),
        valid_elems_from(rest, 0),
    ensures
        valid_elems_from(seq![e] + rest, 0),
    decreases rest.len(),
{
    let whole = seq![e] + rest;
    assert(whole[0] == e);
    lemma_valid_elems_prepend_from(e, rest, 0);
}

/// Element validity from an index shifts across a prepended element.
pub proof fn lemma_valid_elems_prepend_from(e: BsonV, rest: Seq<BsonV>, i: int)
    requires
        0 <= i,
        valid_elems_from(rest, i),
    ensures
        valid_elems_from(seq![e] + rest, i + 1),
    decreases rest.len() - i,
{
    let whole = seq![e] + rest;
    if i < rest.len() {
        assert(whole[i + 1] == rest[i]);
        lemma_valid_elems_prepend_from(e, rest, i + 1);
    }
}

} // verus!
