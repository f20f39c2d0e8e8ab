//! The wire-format contract: what the encoded bytes of every typed value
//! are, stated as specification functions, and the exact encoder that
//! produces them.

use vstd::bytes::{spec_u32_to_le_bytes, spec_u64_to_le_bytes};
use vstd::prelude::*;
use crate::text::is_valid_utf8;
use crate::value::{
    Bson,
    BsonV,
    bson_view,
    elems_view_from,
    entries_view_from,
    valid_bson,
    valid_cstring,
    valid_elems_from,
    valid_entries_from,
};

verus! {

/// The largest byte length an encoded document may declare: the length
/// prefix is a signed 32-bit integer.
pub const MAX_DOCUMENT_LEN: usize = 0x7fff_ffff;

/// The one-byte wire tag of a value.
pub open spec fn el_tag(v: BsonV) -> u8 {
    match v {
        BsonV::Double(_) => 0x01,
        BsonV::String(_) => 0x02,
        BsonV::Document(_) => 0x03,
        BsonV::Array(_) => 0x04,
        BsonV::Binary(_, _) => 0x05,
        BsonV::Undefined => 0x06,
        BsonV::ObjectId(_) => 0x07,
        BsonV::Boolean(_) => 0x08,
        BsonV::DateTime(_) => 0x09,
        BsonV::Null => 0x0a,
        BsonV::Regex(_, _) => 0x0b,
        BsonV::DbPointer(_, _) => 0x0c,
        BsonV::JavaScriptCode(_) => 0x0d,
        BsonV::JavaScriptCodeWithScope(_, _) => 0x0f,
        BsonV::Int32(_) => 0x10,
        BsonV::Timestamp(_) => 0x11,
        BsonV::Int64(_) => 0x12,
        BsonV::Decimal128(_) => 0x13,
        BsonV::MinKey => 0xff,
        BsonV::MaxKey => 0x7f,
    }
}

/// The unsigned 32-bit integer with the same bit pattern as `x`.
pub open spec fn u32_of_i32(x: i32) -> u32 {
    if x >= 0 {
        x as u32
    } else {
        (x + 0x1_0000_0000int) as u32
    }
}

/// The signed 32-bit integer with the same bit pattern as `x`.
pub open spec fn i32_of_u32(x: u32) -> i32 {
    if x < 0x8000_0000 {
        x as i32
    } else {
        (x - 0x1_0000_0000int) as i32
    }
}

/// The unsigned 64-bit integer with the same bit pattern as `x`.
pub open spec fn u64_of_i64(x: i64) -> u64 {
    if x >= 0 {
        x as u64
    } else {
        (x + 0x1_0000_0000_0000_0000int) as u64
    }
}

/// The signed 64-bit integer with the same bit pattern as `x`.
pub open spec fn i64_of_u64(x: u64) -> i64 {
    if x < 0x8000_0000_0000_0000 {
        x as i64
    } else {
        (x - 0x1_0000_0000_0000_0000int) as i64
    }
}

/// The wire form of a signed 32-bit integer: four little-endian bytes.
pub open spec fn enc_i32(x: i32) -> Seq<u8> {
    spec_u32_to_le_bytes(u32_of_i32(x))
}

/// The wire form of a signed 64-bit integer: eight little-endian bytes.
pub open spec fn enc_i64(x: i64) -> Seq<u8> {
    spec_u64_to_le_bytes(u64_of_i64(x))
}

/// The wire form of a C-string: its bytes and one terminating null byte.
pub open spec fn enc_cstring(s: Seq<u8>) -> Seq<u8> {
    s + seq![0u8]
}

/// The wire form of a string: a little-endian byte count that includes
/// the terminator, the bytes, and one terminating null byte.
pub open spec fn enc_string(s: Seq<u8>) -> Seq<u8> {
    spec_u32_to_le_bytes((s.len() + 1) as u32) + s + seq![0u8]
}

/// The decimal ASCII representation of a natural number.
pub open spec fn dec_repr(n: nat) -> Seq<u8>
    decreases n,
{
    if n < 10 {
        seq![(48 + n) as u8]
    } else {
        dec_repr(n / 10) + seq![(48 + (n % 10)) as u8]
    }
}

/// The wire form of one value's payload, without its tag or key.
pub open spec fn enc_value(v: BsonV) -> Seq<u8>
    decreases v, 2int,
{
    match v {
        BsonV::Double(bits) => spec_u64_to_le_bytes(bits),
        BsonV::String(s) => enc_string(s),
        BsonV::Document(entries) => enc_doc(entries),
        BsonV::Array(elems) => enc_array(elems),
        BsonV::Binary(subtype, b) => spec_u32_to_le_bytes(b.len() as u32) + seq![subtype] + b,
        BsonV::Undefined => seq![],
        BsonV::ObjectId(b) => b,
        BsonV::Boolean(b) => seq![if b { 1u8 } else { 0u8 }],
        BsonV::DateTime(ms) => enc_i64(ms),
        BsonV::Null => seq![],
        BsonV::Regex(p, o) => enc_cstring(p) + enc_cstring(o),
        BsonV::DbPointer(ns, id) => enc_string(ns) + id,
        BsonV::JavaScriptCode(c) => enc_string(c),
        BsonV::JavaScriptCodeWithScope(c, scope) => {
            let code = enc_string(c);
            let scope_bytes = enc_doc(scope);
            spec_u32_to_le_bytes((4 + code.len() + scope_bytes.len()) as u32) + code + scope_bytes
        },
        BsonV::Int32(x) => enc_i32(x),
        BsonV::Timestamp(t) => spec_u32_to_le_bytes(t.increment) + spec_u32_to_le_bytes(t.time),
        BsonV::Int64(x) => enc_i64(x),
        BsonV::Decimal128(b) => b,
        BsonV::MinKey => seq![],
        BsonV::MaxKey => seq![],
    }
}

/// The wire form of a document's elements from index `i` on: for each
/// entry a tag byte, the key as a C-string, and the value's payload.
pub open spec fn enc_entries_from(entries: Seq<(Seq<u8>, BsonV)>, i: int) -> Seq<u8>
    decreases entries, 0int, entries.len() - i,
{
    if i < 0 || i >= entries.len() {
        seq![]
    } else {
        seq![el_tag(entries[i].1)] + enc_cstring(entries[i].0) + enc_value(entries[i].1)
            + enc_entries_from(entries, i + 1)
    }
}

/// The wire form of a whole document: a little-endian total length that
/// counts itself and the terminator, the elements, and a null terminator.
pub open spec fn enc_doc(entries: Seq<(Seq<u8>, BsonV)>) -> Seq<u8>
    decreases entries, 1int,
{
    let body = enc_entries_from(entries, 0);
    spec_u32_to_le_bytes((body.len() + 5) as u32) + body + seq![0u8]
}

/// The wire form of an array's elements from index `i` on: encoded as
/// document elements whose keys are the decimal strings of the indices.
pub open spec fn enc_array_elems_from(elems: Seq<BsonV>, i: int) -> Seq<u8>
    decreases elems, 0int, elems.len() - i,
{
    if i < 0 || i >= elems.len() {
        seq![]
    } else {
        seq![el_tag(elems[i])] + enc_cstring(dec_repr(i as nat)) + enc_value(elems[i])
            + enc_array_elems_from(elems, i + 1)
    }
}

/// The wire form of a whole array: a document of index-keyed elements.
pub open spec fn enc_array(elems: Seq<BsonV>) -> Seq<u8>
    decreases elems, 1int,
{
    let body = enc_array_elems_from(elems, 0);
    spec_u32_to_le_bytes((body.len() + 5) as u32) + body + seq![0u8]
}

/// Why an encode was refused: a null byte inside a key or C-string
/// payload, ill-formed UTF-8 in a string, an identifier or decimal of the
/// wrong width, or a result that would exceed [`MAX_DOCUMENT_LEN`].
#[derive(Clone, Copy, PartialEq, Eq, Structural, Debug)]
pub enum EncodeError {
    ContainsNull,
    InvalidUtf8,
    InvalidLength,
    Oversize,
}

/// The length and the members of a viewed entry list.
pub proof fn lemma_entries_view_from(e: Seq<(Vec<u8>, Bson)>, i: int)
    requires
        0 <= i <= e.len(),
    ensures
        entries_view_from(e, i).len() == e.len() - i,
        forall|k: int|
            i <= k < e.len() ==> #[trigger] entries_view_from(e, i)[k - i] == (
                e[k].0@,
                bson_view(e[k].1),
            ),
    decreases e.len() - i,
{
    if i < e.len() {
        lemma_entries_view_from(e, i + 1);
        assert forall|k: int|
            i <= k < e.len() implies #[trigger] entries_view_from(e, i)[k - i] == (
            e[k].0@,
            bson_view(e[k].1),
        ) by {
            if k > i {
                assert(entries_view_from(e, i)[k - i] == entries_view_from(e, i + 1)[k - (i + 1)]);
            }
        }
    }
}

/// The length and the members of a viewed element list.
pub proof fn lemma_elems_view_from(e: Seq<Bson>, i: int)
    requires
        0 <= i <= e.len(),
    ensures
        elems_view_from(e, i).len() == e.len() - i,
        forall|k: int|
            i <= k < e.len() ==> #[trigger] elems_view_from(e, i)[k - i] == bson_view(e[k]),
    decreases e.len() - i,
{
    if i < e.len() {
        lemma_elems_view_from(e, i + 1);
        assert forall|k: int|
            i <= k < e.len() implies #[trigger] elems_view_from(e, i)[k - i] == bson_view(
            e[k],
        ) by {
            if k > i {
                assert(elems_view_from(e, i)[k - i] == elems_view_from(e, i + 1)[k - (i + 1)]);
            }
        }
    }
}

/// Appends four little-endian bytes.
fn push_u32_le(buf: &mut Vec<u8>, x: u32)
    ensures
        final(buf)@ == old(buf)@ + spec_u32_to_le_bytes(x),
{
    proof {
        vstd::bytes::lemma_auto_spec_u32_to_from_le_bytes();
    }
    let b = vstd::bytes::u32_to_le_bytes(x);
    buf.extend_from_slice(b.as_slice());
}

/// Appends eight little-endian bytes.
fn push_u64_le(buf: &mut Vec<u8>, x: u64)
    ensures
        final(buf)@ == old(buf)@ + spec_u64_to_le_bytes(x),
{
    proof {
        vstd::bytes::lemma_auto_spec_u64_to_from_le_bytes();
    }
    let b = vstd::bytes::u64_to_le_bytes(x);
    buf.extend_from_slice(b.as_slice());
}

/// The unsigned 32-bit reinterpretation of a signed value.
pub fn i32_to_u32_bits(x: i32) -> (r: u32)
    ensures
        r == u32_of_i32(x),
{
    if x >= 0 {
        x as u32
    } else {
        ((x as i64) + 0x1_0000_0000i64) as u32
    }
}

/// The signed 32-bit reinterpretation of an unsigned value.
pub fn u32_to_i32_bits(x: u32) -> (r: i32)
    ensures
        r == i32_of_u32(x),
{
    if x < 0x8000_0000 {
        x as i32
    } else {
        ((x as i64) - 0x1_0000_0000i64) as i32
    }
}

/// The unsigned 64-bit reinterpretation of a signed value.
pub fn i64_to_u64_bits(x: i64) -> (r: u64)
    ensures
        r == u64_of_i64(x),
{
    if x >= 0 {
        x as u64
    } else {
        ((x as i128) + 0x1_0000_0000_0000_0000i128) as u64
    }
}

/// The signed 64-bit reinterpretation of an unsigned value.
pub fn u64_to_i64_bits(x: u64) -> (r: i64)
    ensures
        r == i64_of_u64(x),
{
    if x < 0x8000_0000_0000_0000 {
        x as i64
    } else {
        ((x as i128) - 0x1_0000_0000_0000_0000i128) as i64
    }
}

/// Decides whether `fixed + var` more bytes still fit under the document
/// size ceiling.
fn has_space(buf: &Vec<u8>, fixed: usize, var: usize) -> (r: bool)
    requires
        fixed <= 32,
    ensures
        r == (buf@.len() + fixed + var <= MAX_DOCUMENT_LEN),
{
    if var > MAX_DOCUMENT_LEN - fixed {
        false
    } else {
        buf.len() <= MAX_DOCUMENT_LEN - (fixed + var)
    }
}

/// Decides whether bytes may stand as a key or C-string payload on the
/// wire, naming the violated rule otherwise.
pub fn check_cstring(b: &[u8]) -> (r: Result<(), EncodeError>)
    ensures
        r is Ok <==> valid_cstring(b@),
{
    let n = b.len();
    let mut i: usize = 0;
    while i < n
        invariant
            0 <= i <= n,
            n == b@.len(),
            forall|k: int| 0 <= k < i ==> b@[k] != 0u8,
        decreases n - i,
    {
        if b[i] == 0 {
            return Err(EncodeError::ContainsNull);
        }
        i = i + 1;
    }
    if is_valid_utf8(b) {
        Ok(())
    } else {
        Err(EncodeError::InvalidUtf8)
    }
}

/// The wire tag of a value.
pub fn tag_of(v: &Bson) -> (t: u8)
    ensures
        t == el_tag(v@),
{
    match v {
        Bson::Double(_) => 0x01,
        Bson::String(_) => 0x02,
        Bson::Document(_) => 0x03,
        Bson::Array(_) => 0x04,
        Bson::Binary(_, _) => 0x05,
        Bson::Undefined => 0x06,
        Bson::ObjectId(_) => 0x07,
        Bson::Boolean(_) => 0x08,
        Bson::DateTime(_) => 0x09,
        Bson::Null => 0x0a,
        Bson::Regex(_, _) => 0x0b,
        Bson::DbPointer(_, _) => 0x0c,
        Bson::JavaScriptCode(_) => 0x0d,
        Bson::JavaScriptCodeWithScope(_, _) => 0x0f,
        Bson::Int32(_) => 0x10,
        Bson::Timestamp(_) => 0x11,
        Bson::Int64(_) => 0x12,
        Bson::Decimal128(_) => 0x13,
        Bson::MinKey => 0xff,
        Bson::MaxKey => 0x7f,
    }
}

/// Appends a string in its wire form, after checking that it is UTF-8 and
/// that it fits.
fn encode_string_into(s: &Vec<u8>, buf: &mut Vec<u8>) -> (r: Result<(), EncodeError>)
    ensures
        r is Ok <==> vstd::utf8::valid_utf8(s@) && old(buf)@.len() + enc_string(s@).len()
            <= MAX_DOCUMENT_LEN,
        r is Ok ==> final(buf)@ == old(buf)@ + enc_string(s@),
{
    proof {
        vstd::bytes::lemma_auto_spec_u32_to_from_le_bytes();
    }
    if !is_valid_utf8(s.as_slice()) {
        return Err(EncodeError::InvalidUtf8);
    }
    if !has_space(buf, 5, s.len()) {
        return Err(EncodeError::Oversize);
    }
    push_u32_le(buf, (s.len() + 1) as u32);
    buf.extend_from_slice(s.as_slice());
    buf.push(0);
    assert(final(buf)@ =~= old(buf)@ + enc_string(s@));
    Ok(())
}

/// A scoped-code payload is at least as long as each of its two parts.
proof fn lemma_enc_parts_bound(c: Seq<u8>, scope: Seq<(Seq<u8>, BsonV)>)
    ensures
        enc_value(BsonV::JavaScriptCodeWithScope(c, scope)).len() >= enc_string(c).len(),
        enc_value(BsonV::JavaScriptCodeWithScope(c, scope)).len() >= enc_doc(scope).len(),
{
    vstd::bytes::lemma_auto_spec_u32_to_from_le_bytes();
}

/// Encodes one value's payload onto the end of `buf`. Succeeds exactly
/// when the value is representable and the result stays under the size
/// ceiling; on success it appends precisely the value's wire form.
pub fn encode_value_into(v: &Bson, buf: &mut Vec<u8>) -> (r: Result<(), EncodeError>)
    ensures
        r is Ok <==> valid_bson(v@) && old(buf)@.len() + enc_value(v@).len() <= MAX_DOCUMENT_LEN,
        r is Ok ==> final(buf)@ == old(buf)@ + enc_value(v@),
    decreases v, 2int,
{
    proof {
        vstd::bytes::lemma_auto_spec_u32_to_from_le_bytes();
        vstd::bytes::lemma_auto_spec_u64_to_from_le_bytes();
    }
    match v {
        Bson::Double(bits) => {
            if !has_space(buf, 8, 0) {
                return Err(EncodeError::Oversize);
            }
            push_u64_le(buf, *bits);
            Ok(())
        },
        Bson::String(s) => encode_string_into(s, buf),
        Bson::Document(entries) => encode_doc_into(entries, buf),
        Bson::Array(elems) => encode_array_into(elems, buf),
        Bson::Binary(subtype, b) => {
            if !has_space(buf, 5, b.len()) {
                return Err(EncodeError::Oversize);
            }
            push_u32_le(buf, b.len() as u32);
            buf.push(*subtype);
            buf.extend_from_slice(b.as_slice());
            assert(final(buf)@ =~= old(buf)@ + enc_value(v@));
            Ok(())
        },
        Bson::Undefined => {
            if !has_space(buf, 0, 0) {
                return Err(EncodeError::Oversize);
            }
            assert(final(buf)@ =~= old(buf)@ + enc_value(v@));
            Ok(())
        },
        Bson::ObjectId(b) => {
            if b.len() != 12 {
                return Err(EncodeError::InvalidLength);
            }
            if !has_space(buf, 12, 0) {
                return Err(EncodeError::Oversize);
            }
            buf.extend_from_slice(b.as_slice());
            Ok(())
        },
        Bson::Boolean(x) => {
            if !has_space(buf, 1, 0) {
                return Err(EncodeError::Oversize);
            }
            buf.push(if *x {
                1
            } else {
                0
            });
            assert(final(buf)@ =~= old(buf)@ + enc_value(v@));
            Ok(())
        },
        Bson::DateTime(ms) => {
            if !has_space(buf, 8, 0) {
                return Err(EncodeError::Oversize);
            }
            push_u64_le(buf, i64_to_u64_bits(*ms));
            Ok(())
        },
        Bson::Null => {
            if !has_space(buf, 0, 0) {
                return Err(EncodeError::Oversize);
            }
            assert(final(buf)@ =~= old(buf)@ + enc_value(v@));
            Ok(())
        },
        Bson::Regex(p, o) => {
            match check_cstring(p.as_slice()) {
                Ok(()) => {},
                Err(e) => {
                    return Err(e);
                },
            }
            match check_cstring(o.as_slice()) {
                Ok(()) => {},
                Err(e) => {
                    return Err(e);
                },
            }
            if p.len() > MAX_DOCUMENT_LEN || o.len() > MAX_DOCUMENT_LEN {
                return Err(EncodeError::Oversize);
            }
            if !has_space(buf, 2, p.len() + o.len()) {
                return Err(EncodeError::Oversize);
            }
            buf.extend_from_slice(p.as_slice());
            buf.push(0);
            buf.extend_from_slice(o.as_slice());
            buf.push(0);
            assert(final(buf)@ =~= old(buf)@ + enc_value(v@));
            Ok(())
        },
        Bson::DbPointer(ns, id) => {
            if id.len() != 12 {
                return Err(EncodeError::InvalidLength);
            }
            if !is_valid_utf8(ns.as_slice()) {
                return Err(EncodeError::InvalidUtf8);
            }
            if !has_space(buf, 17, ns.len()) {
                return Err(EncodeError::Oversize);
            }
            push_u32_le(buf, (ns.len() + 1) as u32);
            buf.extend_from_slice(ns.as_slice());
            buf.push(0);
            buf.extend_from_slice(id.as_slice());
            assert(final(buf)@ =~= old(buf)@ + enc_value(v@));
            Ok(())
        },
        Bson::JavaScriptCode(c) => {
            let r = encode_string_into(c, buf);
            assert(enc_value(v@) == enc_string(c@));
            r
        },
        Bson::JavaScriptCodeWithScope(c, scope) => {
            proof {
                lemma_enc_parts_bound(c@, entries_view_from(scope@, 0));
            }
            let mut tmp: Vec<u8> = Vec::new();
            match encode_string_into(c, &mut tmp) {
                Ok(()) => {},
                Err(e) => {
                    return Err(e);
                },
            }
            match encode_doc_into(scope, &mut tmp) {
                Ok(()) => {},
                Err(e) => {
                    return Err(e);
                },
            }
            if !has_space(buf, 4, tmp.len()) {
                return Err(EncodeError::Oversize);
            }
            push_u32_le(buf, (tmp.len() + 4) as u32);
            buf.extend_from_slice(tmp.as_slice());
            assert(final(buf)@ =~= old(buf)@ + enc_value(v@));
            Ok(())
        },
        Bson::Int32(x) => {
            if !has_space(buf, 4, 0) {
                return Err(EncodeError::Oversize);
            }
            push_u32_le(buf, i32_to_u32_bits(*x));
            Ok(())
        },
        Bson::Timestamp(t) => {
            if !has_space(buf, 8, 0) {
                return Err(EncodeError::Oversize);
            }
            push_u32_le(buf, t.increment);
            push_u32_le(buf, t.time);
            assert(final(buf)@ =~= old(buf)@ + enc_value(v@));
            Ok(())
        },
        Bson::Int64(x) => {
            if !has_space(buf, 8, 0) {
                return Err(EncodeError::Oversize);
            }
            push_u64_le(buf, i64_to_u64_bits(*x));
            Ok(())
        },
        Bson::Decimal128(b) => {
            if b.len() != 16 {
                return Err(EncodeError::InvalidLength);
            }
            if !has_space(buf, 16, 0) {
                return Err(EncodeError::Oversize);
            }
            buf.extend_from_slice(b.as_slice());
            Ok(())
        },
        Bson::MinKey => {
            if !has_space(buf, 0, 0) {
                return Err(EncodeError::Oversize);
            }
            assert(final(buf)@ =~= old(buf)@ + enc_value(v@));
            Ok(())
        },
        Bson::MaxKey => {
            if !has_space(buf, 0, 0) {
                return Err(EncodeError::Oversize);
            }
            assert(final(buf)@ =~= old(buf)@ + enc_value(v@));
            Ok(())
        },
    }
}

/// Encodes every element of a document onto the end of `buf`: for each
/// entry a tag byte, the key, and the value's payload. Succeeds exactly
/// when every entry is representable and the result stays under the size
/// ceiling.
fn encode_entries_into(entries: &Vec<(Vec<u8>, Bson)>, buf: &mut Vec<u8>) -> (r: Result<
    (),
    EncodeError,
>)
    ensures
        r is Ok <==> valid_entries_from(entries_view_from(entries@, 0), 0) && old(buf)@.len()
            + enc_entries_from(entries_view_from(entries@, 0), 0).len() <= MAX_DOCUMENT_LEN,
        r is Ok ==> final(buf)@ == old(buf)@ + enc_entries_from(entries_view_from(entries@, 0), 0),
    decreases entries, 1int,
{
    let ghost ev = entries_view_from(entries@, 0);
    proof {
        lemma_entries_view_from(entries@, 0);
        assert forall|k: int|
            0 <= k < entries@.len() implies #[trigger] ev[k] == (
            entries@[k].0@,
            bson_view(entries@[k].1),
        ) by {
            assert(entries_view_from(entries@, 0)[k - 0] == (entries@[k].0@, bson_view(entries@[k].1)));
        }
    }
    if buf.len() > MAX_DOCUMENT_LEN {
        return Err(EncodeError::Oversize);
    }
    let n = entries.len();
    let mut j: usize = 0;
    while j < n
        invariant
            0 <= j <= n,
            n == entries@.len(),
            ev == entries_view_from(entries@, 0),
            ev.len() == n,
            forall|k: int|
                0 <= k < n ==> #[trigger] ev[k] == (entries@[k].0@, bson_view(entries@[k].1)),
            buf@.len() <= MAX_DOCUMENT_LEN,
            valid_entries_from(ev, 0) <==> valid_entries_from(ev, j as int),
            buf@ + enc_entries_from(ev, j as int) == old(buf)@ + enc_entries_from(ev, 0),
        decreases n - j,
    {
        let ghost buf_at_head = buf@;
        let key = &entries[j].0;
        let val = &entries[j].1;
        match check_cstring(key.as_slice()) {
            Ok(()) => {},
            Err(e) => {
                assert(!valid_entries_from(ev, j as int));
                return Err(e);
            },
        }
        buf.push(tag_of(val));
        buf.extend_from_slice(key.as_slice());
        buf.push(0);
        assert(buf@ =~= buf_at_head + seq![el_tag(ev[j as int].1)] + enc_cstring(ev[j as int].0));
        proof {
            assert(enc_entries_from(ev, j as int) == seq![el_tag(ev[j as int].1)] + enc_cstring(
                ev[j as int].0,
            ) + enc_value(ev[j as int].1) + enc_entries_from(ev, j + 1));
        }
        let ghost buf_pre_val = buf@;
        match encode_value_into(val, buf) {
            Ok(()) => {},
            Err(e) => {
                proof {
                    if valid_bson(ev[j as int].1) {
                        // The child was too large, so the whole is too.
                        assert(buf_pre_val.len() + enc_value(ev[j as int].1).len()
                            > MAX_DOCUMENT_LEN);
                        assert(buf_at_head.len() + enc_entries_from(ev, j as int).len()
                            > MAX_DOCUMENT_LEN);
                        assert((buf_at_head + enc_entries_from(ev, j as int)).len() == (old(
                            buf,
                        )@ + enc_entries_from(ev, 0)).len());
                    } else {
                        assert(!valid_entries_from(ev, j as int));
                    }
                }
                return Err(e);
            },
        }
        proof {
            assert(buf@ + enc_entries_from(ev, j + 1) =~= buf_at_head + enc_entries_from(
                ev,
                j as int,
            ));
        }
        j = j + 1;
    }
    assert(enc_entries_from(ev, n as int) =~= Seq::<u8>::empty());
    assert(final(buf)@ =~= old(buf)@ + enc_entries_from(ev, 0));
    Ok(())
}

/// Encodes a whole document onto the end of `buf`: length prefix, the
/// elements, and the null terminator.
fn encode_doc_into(entries: &Vec<(Vec<u8>, Bson)>, buf: &mut Vec<u8>) -> (r: Result<
    (),
    EncodeError,
>)
    ensures
        r is Ok <==> valid_entries_from(entries_view_from(entries@, 0), 0) && old(buf)@.len()
            + enc_doc(entries_view_from(entries@, 0)).len() <= MAX_DOCUMENT_LEN,
        r is Ok ==> final(buf)@ == old(buf)@ + enc_doc(entries_view_from(entries@, 0)),
    decreases entries, 2int,
{
    proof {
        vstd::bytes::lemma_auto_spec_u32_to_from_le_bytes();
    }
    let ghost ev = entries_view_from(entries@, 0);
    let mut tmp: Vec<u8> = Vec::new();
    match encode_entries_into(entries, &mut tmp) {
        Ok(()) => {},
        Err(e) => {
            return Err(e);
        },
    }
    if !has_space(buf, 5, tmp.len()) {
        return Err(EncodeError::Oversize);
    }
    push_u32_le(buf, (tmp.len() + 5) as u32);
    buf.extend_from_slice(tmp.as_slice());
    buf.push(0);
    assert(final(buf)@ =~= old(buf)@ + enc_doc(ev));
    Ok(())
}

/// The decimal digits of `n`, as they appear in a synthesized array key.
pub fn index_key_bytes(n: usize) -> (r: Vec<u8>)
    ensures
        r@ == dec_repr(n as nat),
    decreases n,
{
    if n < 10 {
        let mut v: Vec<u8> = Vec::new();
        v.push(48 + (n as u8));
        assert(v@ =~= dec_repr(n as nat));
        v
    } else {
        let mut v = index_key_bytes(n / 10);
        v.push(48 + ((n % 10) as u8));
        assert(v@ =~= dec_repr(n as nat));
        v
    }
}

/// Encodes every element of an array onto the end of `buf`, synthesizing
/// each key as the decimal string of its index.
fn encode_array_elems_into(elems: &Vec<Bson>, buf: &mut Vec<u8>) -> (r: Result<(), EncodeError>)
    ensures
        r is Ok <==> valid_elems_from(elems_view_from(elems@, 0), 0) && old(buf)@.len()
            + enc_array_elems_from(elems_view_from(elems@, 0), 0).len() <= MAX_DOCUMENT_LEN,
        r is Ok ==> final(buf)@ == old(buf)@ + enc_array_elems_from(elems_view_from(elems@, 0), 0),
    decreases elems, 1int,
{
    let ghost ev = elems_view_from(elems@, 0);
    proof {
        lemma_elems_view_from(elems@, 0);
        assert forall|k: int| 0 <= k < elems@.len() implies #[trigger] ev[k] == bson_view(
            elems@[k],
        ) by {
            assert(elems_view_from(elems@, 0)[k - 0] == bson_view(elems@[k]));
        }
    }
    if buf.len() > MAX_DOCUMENT_LEN {
        return Err(EncodeError::Oversize);
    }
    let n = elems.len();
    let mut j: usize = 0;
    while j < n
        invariant
            0 <= j <= n,
            n == elems@.len(),
            ev == elems_view_from(elems@, 0),
            ev.len() == n,
            forall|k: int| 0 <= k < n ==> #[trigger] ev[k] == bson_view(elems@[k]),
            buf@.len() <= MAX_DOCUMENT_LEN,
            valid_elems_from(ev, 0) <==> valid_elems_from(ev, j as int),
            buf@ + enc_array_elems_from(ev, j as int) == old(buf)@ + enc_array_elems_from(ev, 0),
        decreases n - j,
    {
        let ghost buf_at_head = buf@;
        let val = &elems[j];
        let key = index_key_bytes(j);
        buf.push(tag_of(val));
        buf.extend_from_slice(key.as_slice());
        buf.push(0);
        assert(buf@ =~= buf_at_head + seq![el_tag(ev[j as int])] + enc_cstring(dec_repr(j as nat)));
        proof {
            assert(enc_array_elems_from(ev, j as int) == seq![el_tag(ev[j as int])] + enc_cstring(
                dec_repr(j as nat),
            ) + enc_value(ev[j as int]) + enc_array_elems_from(ev, j + 1));
        }
        let ghost buf_pre_val = buf@;
        match encode_value_into(val, buf) {
            Ok(()) => {},
            Err(e) => {
                proof {
                    if valid_bson(ev[j as int]) {
                        // The child was too large, so the whole is too.
                        assert(buf_pre_val.len() + enc_value(ev[j as int]).len()
                            > MAX_DOCUMENT_LEN);
                        assert(buf_at_head.len() + enc_array_elems_from(ev, j as int).len()
                            > MAX_DOCUMENT_LEN);
                        assert((buf_at_head + enc_array_elems_from(ev, j as int)).len() == (old(
                            buf,
                        )@ + enc_array_elems_from(ev, 0)).len());
                    } else {
                        assert(!valid_elems_from(ev, j as int));
                    }
                }
                return Err(e);
            },
        }
        proof {
            assert(buf@ + enc_array_elems_from(ev, j + 1) =~= buf_at_head + enc_array_elems_from(
                ev,
                j as int,
            ));
        }
        j = j + 1;
    }
    assert(enc_array_elems_from(ev, n as int) =~= Seq::<u8>::empty());
    assert(final(buf)@ =~= old(buf)@ + enc_array_elems_from(ev, 0));
    Ok(())
}

/// Encodes a whole array onto the end of `buf`: a document whose keys are
/// the decimal strings of the element indices.
fn encode_array_into(elems: &Vec<Bson>, buf: &mut Vec<u8>) -> (r: Result<(), EncodeError>)
    ensures
        r is Ok <==> valid_elems_from(elems_view_from(elems@, 0), 0) && old(buf)@.len() + enc_array(
            elems_view_from(elems@, 0),
        ).len() <= MAX_DOCUMENT_LEN,
        r is Ok ==> final(buf)@ == old(buf)@ + enc_array(elems_view_from(elems@, 0)),
    decreases elems, 2int,
{
    proof {
        vstd::bytes::lemma_auto_spec_u32_to_from_le_bytes();
    }
    let ghost ev = elems_view_from(elems@, 0);
    let mut tmp: Vec<u8> = Vec::new();
    match encode_array_elems_into(elems, &mut tmp) {
        Ok(()) => {},
        Err(e) => {
            return Err(e);
        },
    }
    if !has_space(buf, 5, tmp.len()) {
        return Err(EncodeError::Oversize);
    }
    push_u32_le(buf, (tmp.len() + 5) as u32);
    buf.extend_from_slice(tmp.as_slice());
    buf.push(0);
    assert(final(buf)@ =~= old(buf)@ + enc_array(ev));
    Ok(())
}

/// Encodes a document given as an entry list into a fresh byte buffer.
/// Succeeds exactly when every entry is representable and the encoding
/// stays under the size ceiling; the bytes returned are then precisely
/// the document's wire form.
pub fn encode_document(entries: &Vec<(Vec<u8>, Bson)>) -> (r: Result<Vec<u8>, EncodeError>)
    ensures
        r is Ok <==> valid_entries_from(entries_view_from(entries@, 0), 0) && enc_doc(
            entries_view_from(entries@, 0),
        ).len() <= MAX_DOCUMENT_LEN,
        r matches Ok(b) ==> b@ == enc_doc(entries_view_from(entries@, 0)),
{
    let mut buf: Vec<u8> = Vec::new();
    match encode_doc_into(entries, &mut buf) {
        Ok(()) => Ok(buf),
        Err(e) => Err(e),
    }
}

} // verus!
