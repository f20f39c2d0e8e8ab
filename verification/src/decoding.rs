//! The wire-format parser: a specification-level decoder that fixes the
//! meaning of every byte pattern, and the exact executable decoder that
//! implements it. Parsing is total: every buffer either decodes to one
//! value or is rejected. The decoder recurses as deep as the input nests,
//! and a declared length never reaches past the buffer; a caller that
//! must bound nesting on adversarial input enforces the cap at its
//! boundary before decoding.

use vstd::bytes::{spec_u32_from_le_bytes, spec_u64_from_le_bytes};
use vstd::prelude::*;
use vstd::utf8::valid_utf8;
use crate::encoding::{dec_repr, el_tag, enc_cstring, i32_of_u32, i64_of_u64, MAX_DOCUMENT_LEN};
use crate::roundtrip::lemma_dec_value_sound;
use crate::text::{is_valid_utf8, lossy_utf8, utf8_lossy};
use crate::value::{Bson, bson_view};
use crate::encoding::{index_key_bytes, lemma_elems_view_from, lemma_entries_view_from, u32_to_i32_bits, u64_to_i64_bits};
use crate::value::{entries_view_from, elems_view_from};
use crate::value::{BsonV, Timestamp, valid_cstring};

verus! {

/// The index of the first null byte, if any.
pub open spec fn find_nul(s: Seq<u8>) -> Option<int>
    decreases s.len(),
{
    if s.len() == 0 {
        None
    } else if s[0] == 0u8 {
        Some(0int)
    } else {
        match find_nul(s.drop_first()) {
            Some(i) => Some(i + 1),
            None => None,
        }
    }
}

/// What the first null byte's index means: it is in range, it is a null
/// byte, and nothing before it is.
pub proof fn lemma_find_nul(s: Seq<u8>)
    ensures
        match find_nul(s) {
            Some(i) => 0 <= i < s.len() && s[i] == 0u8 && forall|j: int| 0 <= j < i ==> s[j] != 0u8,
            None => forall|j: int| 0 <= j < s.len() ==> s[j] != 0u8,
        },
    decreases s.len(),
{
    if s.len() > 0 && s[0] != 0u8 {
        let t = s.drop_first();
        lemma_find_nul(t);
        match find_nul(t) {
            Some(i) => {
                assert(s[i + 1] == t[i]);
                assert forall|j: int| 0 <= j < i + 1 implies s[j] != 0u8 by {
                    if j > 0 {
                        assert(s[j] == t[j - 1]);
                    }
                }
            },
            None => {
                assert forall|j: int| 0 <= j < s.len() implies s[j] != 0u8 by {
                    if j > 0 {
                        assert(s[j] == t[j - 1]);
                    }
                }
            },
        }
    }
}

/// The bytes of a decoded string: themselves when they are well-formed
/// UTF-8; in lossy mode, their lossy repair; otherwise nothing.
pub open spec fn dec_text(s: Seq<u8>, lossy: bool) -> Option<Seq<u8>> {
    if valid_utf8(s) {
        Some(s)
    } else if lossy {
        Some(lossy_utf8(s))
    } else {
        None
    }
}

/// Parses a C-string at the start of `s`: the bytes up to the first null
/// byte, which must exist and hold text. Returns the bytes and the count
/// consumed, terminator included.
pub open spec fn dec_cstring(s: Seq<u8>, lossy: bool) -> Option<(Seq<u8>, int)> {
    match find_nul(s) {
        Some(i) => match dec_text(s.subrange(0, i), lossy) {
            Some(t) => Some((t, i + 1)),
            None => None,
        },
        None => None,
    }
}

/// Parses a length-prefixed string at the start of `s`: the declared
/// count covers the bytes and one null terminator, which must be present.
pub open spec fn dec_string(s: Seq<u8>, lossy: bool) -> Option<(Seq<u8>, int)> {
    if s.len() >= 4 {
        let n = spec_u32_from_le_bytes(s.subrange(0, 4)) as int;
        if 1 <= n && n <= MAX_DOCUMENT_LEN && 4 + n <= s.len() && s[4 + n - 1] == 0u8 {
            match dec_text(s.subrange(4, 4 + n - 1), lossy) {
                Some(t) => Some((t, 4 + n)),
                None => None,
            }
        } else {
            None
        }
    } else {
        None
    }
}

/// True when the keys of an entry list are exactly the decimal strings of
/// their indices, as an array's keys must be.
pub open spec fn keys_are_indices(entries: Seq<(Seq<u8>, BsonV)>) -> bool {
    forall|i: int| 0 <= i < entries.len() ==> #[trigger] entries[i].0 == dec_repr(i as nat)
}

/// The values of an entry list, keys dropped.
pub open spec fn entry_values(entries: Seq<(Seq<u8>, BsonV)>) -> Seq<BsonV> {
    Seq::new(entries.len(), |i: int| entries[i].1)
}

/// Parses one value of kind `tag` at the start of `s`, returning the
/// value and the count of bytes consumed, or nothing when the bytes are
/// malformed. In lossy mode, ill-formed UTF-8 inside strings is repaired
/// instead of rejected.
pub open spec fn dec_value(tag: u8, s: Seq<u8>, lossy: bool) -> Option<(BsonV, int)>
    decreases s.len(), 2int,
{
    if tag == 0x01 {
        if s.len() >= 8 {
            Some((BsonV::Double(spec_u64_from_le_bytes(s.subrange(0, 8))), 8))
        } else {
            None
        }
    } else if tag == 0x02 {
        match dec_string(s, lossy) {
            Some((t, c)) => Some((BsonV::String(t), c)),
            None => None,
        }
    } else if tag == 0x03 {
        if s.len() >= 4 {
            let dl = spec_u32_from_le_bytes(s.subrange(0, 4)) as int;
            if 5 <= dl <= s.len() {
                match dec_doc(s.subrange(0, dl), lossy) {
                    Some(entries) => Some((BsonV::Document(entries), dl)),
                    None => None,
                }
            } else {
                None
            }
        } else {
            None
        }
    } else if tag == 0x04 {
        if s.len() >= 4 {
            let dl = spec_u32_from_le_bytes(s.subrange(0, 4)) as int;
            if 5 <= dl <= s.len() {
                match dec_doc(s.subrange(0, dl), lossy) {
                    Some(entries) => if keys_are_indices(entries) {
                        Some((BsonV::Array(entry_values(entries)), dl))
                    } else {
                        None
                    },
                    None => None,
                }
            } else {
                None
            }
        } else {
            None
        }
    } else if tag == 0x05 {
        if s.len() >= 5 {
            let bl = spec_u32_from_le_bytes(s.subrange(0, 4)) as int;
            if bl <= MAX_DOCUMENT_LEN && 5 + bl <= s.len() {
                Some((BsonV::Binary(s[4], s.subrange(5, 5 + bl)), 5 + bl))
            } else {
                None
            }
        } else {
            None
        }
    } else if tag == 0x06 {
        Some((BsonV::Undefined, 0))
    } else if tag == 0x07 {
        if s.len() >= 12 {
            Some((BsonV::ObjectId(s.subrange(0, 12)), 12))
        } else {
            None
        }
    } else if tag == 0x08 {
        if s.len() >= 1 && (s[0] == 0u8 || s[0] == 1u8) {
            Some((BsonV::Boolean(s[0] == 1u8), 1))
        } else {
            None
        }
    } else if tag == 0x09 {
        if s.len() >= 8 {
            Some((BsonV::DateTime(i64_of_u64(spec_u64_from_le_bytes(s.subrange(0, 8)))), 8))
        } else {
            None
        }
    } else if tag == 0x0a {
        Some((BsonV::Null, 0))
    } else if tag == 0x0b {
        match dec_cstring(s, lossy) {
            Some((p, pc)) => match dec_cstring(s.subrange(pc, s.len() as int), lossy) {
                Some((o, oc)) => Some((BsonV::Regex(p, o), pc + oc)),
                None => None,
            },
            None => None,
        }
    } else if tag == 0x0c {
        match dec_string(s, lossy) {
            Some((ns, c)) => if c + 12 <= s.len() {
                Some((BsonV::DbPointer(ns, s.subrange(c, c + 12)), c + 12))
            } else {
                None
            },
            None => None,
        }
    } else if tag == 0x0d {
        match dec_string(s, lossy) {
            Some((t, c)) => Some((BsonV::JavaScriptCode(t), c)),
            None => None,
        }
    } else if tag == 0x0f {
        if s.len() >= 4 {
            let total = spec_u32_from_le_bytes(s.subrange(0, 4)) as int;
            if 10 <= total <= s.len() && total <= MAX_DOCUMENT_LEN {
                match dec_string(s.subrange(4, total), lossy) {
                    Some((code, cc)) => if 5 <= cc && 4 + cc <= total {
                        match dec_doc(s.subrange(4 + cc, total), lossy) {
                            Some(scope) => Some(
                                (BsonV::JavaScriptCodeWithScope(code, scope), total),
                            ),
                            None => None,
                        }
                    } else {
                        None
                    },
                    None => None,
                }
            } else {
                None
            }
        } else {
            None
        }
    } else if tag == 0x10 {
        if s.len() >= 4 {
            Some((BsonV::Int32(i32_of_u32(spec_u32_from_le_bytes(s.subrange(0, 4)))), 4))
        } else {
            None
        }
    } else if tag == 0x11 {
        if s.len() >= 8 {
            Some(
                (
                    BsonV::Timestamp(
                        Timestamp {
                            increment: spec_u32_from_le_bytes(s.subrange(0, 4)),
                            time: spec_u32_from_le_bytes(s.subrange(4, 8)),
                        },
                    ),
                    8,
                ),
            )
        } else {
            None
        }
    } else if tag == 0x12 {
        if s.len() >= 8 {
            Some((BsonV::Int64(i64_of_u64(spec_u64_from_le_bytes(s.subrange(0, 8)))), 8))
        } else {
            None
        }
    } else if tag == 0x13 {
        if s.len() >= 16 {
            Some((BsonV::Decimal128(s.subrange(0, 16)), 16))
        } else {
            None
        }
    } else if tag == 0xff {
        Some((BsonV::MinKey, 0))
    } else if tag == 0x7f {
        Some((BsonV::MaxKey, 0))
    } else {
        None
    }
}

/// Parses the element region of a document: zero or more elements, each a
/// non-null tag byte, a key, and one value, filling the region exactly.
pub open spec fn dec_elements(s: Seq<u8>, lossy: bool) -> Option<Seq<(Seq<u8>, BsonV)>>
    decreases s.len(), 0int,
{
    if s.len() == 0 {
        Some(seq![])
    } else if s[0] == 0u8 {
        None
    } else {
        match dec_cstring(s.drop_first(), lossy) {
            Some((key, kc)) => if 1 <= kc && 1 + kc <= s.len() {
                match dec_value(s[0], s.subrange(1 + kc, s.len() as int), lossy) {
                    Some((v, c)) => if el_tag(v) == s[0] && 0 <= c && 1 + kc + c <= s.len() {
                        match dec_elements(s.subrange(1 + kc + c, s.len() as int), lossy) {
                            Some(rest) => Some(seq![(key, v)] + rest),
                            None => None,
                        }
                    } else {
                        None
                    },
                    None => None,
                }
            } else {
                None
            },
            None => None,
        }
    }
}

/// Parses a whole document region: the declared length equals the region,
/// stays under the ceiling, the region ends with a null terminator, and
/// the elements fill what lies between.
pub open spec fn dec_doc(s: Seq<u8>, lossy: bool) -> Option<Seq<(Seq<u8>, BsonV)>>
    decreases s.len(), 1int,
{
    if 5 <= s.len() <= MAX_DOCUMENT_LEN && spec_u32_from_le_bytes(s.subrange(0, 4)) == s.len()
        && s[s.len() - 1] == 0u8 {
        dec_elements(s.subrange(4, s.len() - 1), lossy)
    } else {
        None
    }
}


/// A sequence of plain ASCII bytes is well-formed UTF-8.
pub proof fn lemma_ascii_valid_utf8(s: Seq<u8>)
    requires
        forall|i: int| 0 <= i < s.len() ==> s[i] < 0x80,
    ensures
        valid_utf8(s),
    decreases s.len(),
{
    if s.len() > 0 {
        let b = s[0];
        assert((b & 0x7f) == b) by (bit_vector)
            requires
                b < 0x80,
        ;
        assert(vstd::utf8::valid_first_scalar(s));
        assert(vstd::utf8::pop_first_scalar(s) =~= s.drop_first());
        lemma_ascii_valid_utf8(s.drop_first());
    }
}

/// Decimal digits: at least one byte, every byte an ASCII digit.
pub proof fn lemma_dec_repr_digits(n: nat)
    ensures
        dec_repr(n).len() >= 1,
        forall|i: int| 0 <= i < dec_repr(n).len() ==> 48 <= #[trigger] dec_repr(n)[i] <= 57,
    decreases n,
{
    if n >= 10 {
        lemma_dec_repr_digits(n / 10);
    }
}

/// A decimal key is a well-formed C-string.
pub proof fn lemma_dec_repr_cstring(n: nat)
    ensures
        valid_cstring(dec_repr(n)),
{
    lemma_dec_repr_digits(n);
    lemma_ascii_valid_utf8(dec_repr(n));
}

/// The first null byte of an encoded C-string is its terminator.
pub proof fn lemma_find_nul_enc(k: Seq<u8>, rest: Seq<u8>)
    requires
        forall|j: int| 0 <= j < k.len() ==> k[j] != 0u8,
    ensures
        find_nul(enc_cstring(k) + rest) == Some(k.len() as int),
    decreases k.len(),
{
    let s = enc_cstring(k) + rest;
    if k.len() == 0 {
        assert(s[0] == 0u8);
    } else {
        assert(s[0] == k[0]);
        lemma_find_nul_enc(k.drop_first(), rest);
        assert(s.drop_first() =~= enc_cstring(k.drop_first()) + rest);
    }
}



/// Why a decode was refused: bytes missing for what a length or a tag
/// declared, a length field at odds with the buffer, ill-formed UTF-8, a
/// key without a terminator, a type tag this format does not define, or a
/// payload value outside its lawful range.
#[derive(Clone, Copy, PartialEq, Eq, Structural, Debug)]
pub enum DecodeError {
    Truncated,
    LengthMismatch,
    InvalidUtf8,
    UnterminatedKey,
    UnknownTag,
    InvalidValue,
}

/// Reads four little-endian bytes at `pos`.
fn read_u32_at(data: &[u8], pos: usize) -> (r: u32)
    requires
        pos + 4 <= data@.len(),
    ensures
        r == spec_u32_from_le_bytes(data@.subrange(pos as int, pos + 4)),
{
    let n = data.len();
    let s = vstd::slice::slice_subrange(data, pos, pos + 4);
    vstd::bytes::u32_from_le_bytes(s)
}

/// Reads eight little-endian bytes at `pos`.
fn read_u64_at(data: &[u8], pos: usize) -> (r: u64)
    requires
        pos + 8 <= data@.len(),
    ensures
        r == spec_u64_from_le_bytes(data@.subrange(pos as int, pos + 8)),
{
    let n = data.len();
    let s = vstd::slice::slice_subrange(data, pos, pos + 8);
    vstd::bytes::u64_from_le_bytes(s)
}

/// Finds the first null byte in `[pos, end)`, as [`find_nul`] does on the
/// region.
fn find_nul_in(data: &[u8], pos: usize, end: usize) -> (r: Option<usize>)
    requires
        pos <= end <= data@.len(),
    ensures
        match r {
            Some(z) => pos <= z < end && find_nul(data@.subrange(pos as int, end as int)) == Some(
                z - pos,
            ),
            None => find_nul(data@.subrange(pos as int, end as int)) is None,
        },
{
    let ghost region = data@.subrange(pos as int, end as int);
    proof {
        lemma_find_nul(region);
    }
    let mut i: usize = pos;
    while i < end
        invariant
            pos <= i <= end <= data@.len(),
            region == data@.subrange(pos as int, end as int),
            forall|j: int| 0 <= j < i - pos ==> region[j] != 0u8,
        decreases end - i,
    {
        assert(region[i - pos] == data@[i as int]);
        if data[i] == 0 {
            proof {
                lemma_find_nul(region);
                match find_nul(region) {
                    Some(k) => {
                        if k < i - pos {
                            assert(region[k] != 0u8);
                        } else if k > i - pos {
                            assert(region[i - pos] != 0u8);
                        }
                    },
                    None => {
                        assert(region[i - pos] != 0u8);
                    },
                }
            }
            return Some(i);
        }
        i = i + 1;
    }
    proof {
        lemma_find_nul(region);
        if find_nul(region) is Some {
            let k = find_nul(region)->Some_0;
            assert(region[k] != 0u8);
        }
    }
    None
}

/// Copies the text in `[pos, tend)`, validating it as UTF-8 or, in lossy
/// mode, repairing it.
fn read_text(data: &[u8], pos: usize, tend: usize, lossy: bool) -> (r: Result<Vec<u8>, DecodeError>)
    requires
        pos <= tend <= data@.len(),
    ensures
        match r {
            Ok(t) => dec_text(data@.subrange(pos as int, tend as int), lossy) == Some(t@),
            Err(_) => dec_text(data@.subrange(pos as int, tend as int), lossy) is None,
        },
{
    let sl = vstd::slice::slice_subrange(data, pos, tend);
    if is_valid_utf8(sl) {
        Ok(vstd::slice::slice_to_vec(sl))
    } else if lossy {
        Ok(utf8_lossy(sl))
    } else {
        Err(DecodeError::InvalidUtf8)
    }
}

/// Parses a C-string beginning at `pos`, as [`dec_cstring`] does on the
/// region `[pos, end)`. Returns the text and the position after the
/// terminator.
fn decode_cstring_at(data: &[u8], pos: usize, end: usize, lossy: bool) -> (r: Result<
    (Vec<u8>, usize),
    DecodeError,
>)
    requires
        pos <= end <= data@.len(),
    ensures
        match r {
            Ok((t, np)) => pos < np <= end && dec_cstring(
                data@.subrange(pos as int, end as int),
                lossy,
            ) == Some((t@, np - pos)),
            Err(_) => dec_cstring(data@.subrange(pos as int, end as int), lossy) is None,
        },
{
    let ghost region = data@.subrange(pos as int, end as int);
    match find_nul_in(data, pos, end) {
        Some(z) => {
            assert(region.subrange(0, z - pos) =~= data@.subrange(pos as int, z as int));
            match read_text(data, pos, z, lossy) {
                Ok(t) => Ok((t, z + 1)),
                Err(e) => Err(e),
            }
        },
        None => Err(DecodeError::UnterminatedKey),
    }
}

/// Parses a length-prefixed string beginning at `pos`, as [`dec_string`]
/// does on the region `[pos, end)`.
fn decode_string_at(data: &[u8], pos: usize, end: usize, lossy: bool) -> (r: Result<
    (Vec<u8>, usize),
    DecodeError,
>)
    requires
        pos <= end <= data@.len(),
    ensures
        match r {
            Ok((t, np)) => pos < np <= end && dec_string(
                data@.subrange(pos as int, end as int),
                lossy,
            ) == Some((t@, np - pos)),
            Err(_) => dec_string(data@.subrange(pos as int, end as int), lossy) is None,
        },
{
    let ghost region = data@.subrange(pos as int, end as int);
    if end - pos < 4 {
        return Err(DecodeError::Truncated);
    }
    assert(region.subrange(0, 4) =~= data@.subrange(pos as int, pos + 4));
    let n = read_u32_at(data, pos);
    if n < 1 || n > MAX_DOCUMENT_LEN as u32 {
        return Err(DecodeError::LengthMismatch);
    }
    let n = n as usize;
    if n > end - pos - 4 {
        return Err(DecodeError::Truncated);
    }
    assert(region[4 + n - 1] == data@[pos + 4 + n - 1]);
    if data[pos + 4 + n - 1] != 0 {
        return Err(DecodeError::LengthMismatch);
    }
    assert(region.subrange(4, 4 + n - 1) =~= data@.subrange(pos + 4, pos + 4 + n - 1));
    match read_text(data, pos + 4, pos + 4 + n - 1, lossy) {
        Ok(t) => Ok((t, pos + 4 + n)),
        Err(e) => Err(e),
    }
}


/// Pushing an entry extends the entry list's view by that entry's view.
proof fn lemma_entries_view_push(e: Seq<(Vec<u8>, Bson)>, k: Vec<u8>, v: Bson)
    ensures
        entries_view_from(e.push((k, v)), 0) == entries_view_from(e, 0) + seq![(k@, bson_view(v))],
{
    lemma_entries_view_from(e, 0);
    lemma_entries_view_from(e.push((k, v)), 0);
    let rhs = entries_view_from(e, 0) + seq![(k@, bson_view(v))];
    assert forall|i: int|
        0 <= i < e.len() + 1 implies #[trigger] entries_view_from(e.push((k, v)), 0)[i]
        == rhs[i] by {
        assert(entries_view_from(e.push((k, v)), 0)[i - 0] == (
            e.push((k, v))[i].0@,
            bson_view(e.push((k, v))[i].1),
        ));
        if i < e.len() {
            assert(e.push((k, v))[i] == e[i]);
            assert(entries_view_from(e, 0)[i - 0] == (e[i].0@, bson_view(e[i].1)));
        } else {
            assert(e.push((k, v))[i] == (k, v));
        }
    }
    assert(entries_view_from(e.push((k, v)), 0) =~= rhs);
}

/// Whether two byte vectors hold the same bytes.
fn bytes_eq(a: &Vec<u8>, b: &Vec<u8>) -> (r: bool)
    ensures
        r == (a@ == b@),
{
    if a.len() != b.len() {
        return false;
    }
    let n = a.len();
    let mut i: usize = 0;
    while i < n
        invariant
            0 <= i <= n,
            n == a@.len() == b@.len(),
            forall|j: int| 0 <= j < i ==> a@[j] == b@[j],
        decreases n - i,
    {
        if a[i] != b[i] {
            return false;
        }
        i = i + 1;
    }
    assert(a@ =~= b@);
    true
}


/// Parses an embedded document value, as [`dec_value`] does for its tag.
fn decode_doc_value_at(data: &[u8], pos: usize, end: usize, lossy: bool) -> (r: Result<
    (Bson, usize),
    DecodeError,
>)
    requires
        pos <= end <= data@.len(),
    ensures
        match r {
            Ok((v, np)) => pos <= np <= end && dec_value(
                0x03,
                data@.subrange(pos as int, end as int),
                lossy,
            ) == Some((v@, np - pos)),
            Err(_) => dec_value(0x03, data@.subrange(pos as int, end as int), lossy) is None,
        },
    decreases end - pos, 2int,
{
    let ghost region = data@.subrange(pos as int, end as int);
    if end - pos < 4 {
        return Err(DecodeError::Truncated);
    }
    assert(region.subrange(0, 4) =~= data@.subrange(pos as int, pos + 4));
    let dl32 = read_u32_at(data, pos);
    if dl32 < 5 || dl32 as usize > end - pos {
        return Err(DecodeError::LengthMismatch);
    }
    let dl = dl32 as usize;
    assert(region.subrange(0, dl as int) =~= data@.subrange(pos as int, pos + dl));
    match decode_doc_at(data, pos, pos + dl, lossy) {
        Ok(entries) => Ok((Bson::Document(entries), pos + dl)),
        Err(e) => Err(e),
    }
}

/// Parses an embedded array value, as [`dec_value`] does for its tag: an
/// embedded document whose keys must be the decimal strings of the
/// element indices, which are checked and dropped.
fn decode_array_at(data: &[u8], pos: usize, end: usize, lossy: bool) -> (r: Result<
    (Bson, usize),
    DecodeError,
>)
    requires
        pos <= end <= data@.len(),
    ensures
        match r {
            Ok((v, np)) => pos <= np <= end && dec_value(
                0x04,
                data@.subrange(pos as int, end as int),
                lossy,
            ) == Some((v@, np - pos)),
            Err(_) => dec_value(0x04, data@.subrange(pos as int, end as int), lossy) is None,
        },
    decreases end - pos, 2int,
{
    let ghost region = data@.subrange(pos as int, end as int);
    if end - pos < 4 {
        return Err(DecodeError::Truncated);
    }
    assert(region.subrange(0, 4) =~= data@.subrange(pos as int, pos + 4));
    let dl32 = read_u32_at(data, pos);
    if dl32 < 5 || dl32 as usize > end - pos {
        return Err(DecodeError::LengthMismatch);
    }
    let dl = dl32 as usize;
    assert(region.subrange(0, dl as int) =~= data@.subrange(pos as int, pos + dl));
    let mut entries = match decode_doc_at(data, pos, pos + dl, lossy) {
        Ok(entries) => entries,
        Err(e) => {
            return Err(e);
        },
    };
    let ghost e_view = entries_view_from(entries@, 0);
    let ghost orig = entries@;
    proof {
        lemma_entries_view_from(orig, 0);
        assert forall|i: int|
            0 <= i < orig.len() implies #[trigger] e_view[i] == (
            orig[i].0@,
            bson_view(orig[i].1),
        ) by {
            assert(entries_view_from(orig, 0)[i - 0] == (orig[i].0@, bson_view(orig[i].1)));
        }
        assert(orig.skip(0) =~= orig);
    }
    let total = entries.len();
    let mut values: Vec<Bson> = Vec::new();
    let mut j: usize = 0;
    while j < total
        invariant
            0 <= j <= total,
            pos + dl <= end,
            dec_value(0x04, data@.subrange(pos as int, end as int), lossy) == (
            if keys_are_indices(e_view) {
                Some((BsonV::Array(entry_values(e_view)), dl as int))
            } else {
                None::<(BsonV, int)>
            }),
            orig.len() == total,
            e_view == entries_view_from(orig, 0),
            e_view.len() == total,
            forall|i: int| 0 <= i < total ==> #[trigger] e_view[i] == (
                orig[i].0@,
                bson_view(orig[i].1),
            ),
            entries@ == orig.skip(j as int),
            values@.len() == j,
            forall|i: int| 0 <= i < j ==> #[trigger] values@[i] == orig[i].1,
            forall|i: int| 0 <= i < j ==> #[trigger] e_view[i].0 == dec_repr(i as nat),
        decreases total - j,
    {
        let (k, v) = entries.remove(0);
        proof {
            assert(orig.skip(j as int)[0] == orig[j as int]);
            assert(orig.skip(j as int).remove(0) =~= orig.skip(j + 1));
        }
        let expected = index_key_bytes(j);
        if !bytes_eq(&k, &expected) {
            proof {
                assert(e_view[j as int].0 == k@);
                assert(!keys_are_indices(e_view));
            }
            return Err(DecodeError::InvalidValue);
        }
        values.push(v);
        j = j + 1;
    }
    proof {
        assert(keys_are_indices(e_view));
        lemma_elems_view_from(values@, 0);
        assert forall|i: int|
            0 <= i < total implies #[trigger] elems_view_from(values@, 0)[i] == entry_values(
            e_view,
        )[i] by {
            assert(elems_view_from(values@, 0)[i - 0] == bson_view(values@[i]));
            assert(e_view[i].1 == bson_view(orig[i].1));
        }
        assert(elems_view_from(values@, 0) =~= entry_values(e_view));
    }
    Ok((Bson::Array(values), pos + dl))
}

/// Parses a scoped-code value, as [`dec_value`] does for its tag: a total
/// length, a code string, and a scope document that fills the rest.
fn decode_code_scope_at(data: &[u8], pos: usize, end: usize, lossy: bool) -> (r: Result<
    (Bson, usize),
    DecodeError,
>)
    requires
        pos <= end <= data@.len(),
    ensures
        match r {
            Ok((v, np)) => pos <= np <= end && dec_value(
                0x0f,
                data@.subrange(pos as int, end as int),
                lossy,
            ) == Some((v@, np - pos)),
            Err(_) => dec_value(0x0f, data@.subrange(pos as int, end as int), lossy) is None,
        },
    decreases end - pos, 2int,
{
    let ghost region = data@.subrange(pos as int, end as int);
    if end - pos < 4 {
        return Err(DecodeError::Truncated);
    }
    assert(region.subrange(0, 4) =~= data@.subrange(pos as int, pos + 4));
    let total32 = read_u32_at(data, pos);
    if total32 < 10 || total32 > MAX_DOCUMENT_LEN as u32 || total32 as usize > end - pos {
        return Err(DecodeError::LengthMismatch);
    }
    let total = total32 as usize;
    assert(region.subrange(4, total as int) =~= data@.subrange(pos + 4, pos + total));
    let (code, np1) = match decode_string_at(data, pos + 4, pos + total, lossy) {
        Ok(x) => x,
        Err(e) => {
            return Err(e);
        },
    };
    proof {
        crate::roundtrip::lemma_dec_string_sound(data@.subrange(pos + 4, pos + total), lossy);
    }
    assert(region.subrange(np1 - pos, total as int) =~= data@.subrange(np1 as int, pos + total));
    match decode_doc_at(data, np1, pos + total, lossy) {
        Ok(scope) => Ok((Bson::JavaScriptCodeWithScope(code, scope), pos + total)),
        Err(e) => Err(e),
    }
}

/// Parses one value of kind `tag` beginning at `pos`, as [`dec_value`]
/// does on the region `[pos, end)`. Returns the value and the position
/// after it.
#[verifier::rlimit(100)]
#[verifier::spinoff_prover]
pub fn decode_value_at(data: &[u8], pos: usize, end: usize, tag: u8, lossy: bool) -> (r: Result<
    (Bson, usize),
    DecodeError,
>)
    requires
        pos <= end <= data@.len(),
    ensures
        match r {
            Ok((v, np)) => pos <= np <= end && dec_value(
                tag,
                data@.subrange(pos as int, end as int),
                lossy,
            ) == Some((v@, np - pos)),
            Err(_) => dec_value(tag, data@.subrange(pos as int, end as int), lossy) is None,
        },
    decreases end - pos, 3int,
{
    let ghost region = data@.subrange(pos as int, end as int);
    let n = data.len();
    if tag == 0x01 {
        if end - pos < 8 {
            return Err(DecodeError::Truncated);
        }
        assert(region.subrange(0, 8) =~= data@.subrange(pos as int, pos + 8));
        let bits = read_u64_at(data, pos);
        Ok((Bson::Double(bits), pos + 8))
    } else if tag == 0x02 {
        match decode_string_at(data, pos, end, lossy) {
            Ok((t, np)) => Ok((Bson::String(t), np)),
            Err(e) => Err(e),
        }
    } else if tag == 0x03 {
        decode_doc_value_at(data, pos, end, lossy)
    } else if tag == 0x04 {
        decode_array_at(data, pos, end, lossy)
    } else if tag == 0x05 {
        if end - pos < 5 {
            return Err(DecodeError::Truncated);
        }
        assert(region.subrange(0, 4) =~= data@.subrange(pos as int, pos + 4));
        let bl32 = read_u32_at(data, pos);
        if bl32 > MAX_DOCUMENT_LEN as u32 {
            return Err(DecodeError::LengthMismatch);
        }
        let bl = bl32 as usize;
        if bl > end - pos - 5 {
            return Err(DecodeError::Truncated);
        }
        assert(region[4] == data@[pos + 4]);
        let subtype = data[pos + 4];
        let payload = vstd::slice::slice_to_vec(vstd::slice::slice_subrange(
            data,
            pos + 5,
            pos + 5 + bl,
        ));
        assert(region.subrange(5, 5 + bl as int) =~= data@.subrange(pos + 5, pos + 5 + bl));
        Ok((Bson::Binary(subtype, payload), pos + 5 + bl))
    } else if tag == 0x06 {
        Ok((Bson::Undefined, pos))
    } else if tag == 0x07 {
        if end - pos < 12 {
            return Err(DecodeError::Truncated);
        }
        let b = vstd::slice::slice_to_vec(vstd::slice::slice_subrange(data, pos, pos + 12));
        assert(region.subrange(0, 12) =~= data@.subrange(pos as int, pos + 12));
        Ok((Bson::ObjectId(b), pos + 12))
    } else if tag == 0x08 {
        if end - pos < 1 {
            return Err(DecodeError::Truncated);
        }
        assert(region[0] == data@[pos as int]);
        let b = data[pos];
        if b > 1 {
            return Err(DecodeError::InvalidValue);
        }
        Ok((Bson::Boolean(b == 1), pos + 1))
    } else if tag == 0x09 {
        if end - pos < 8 {
            return Err(DecodeError::Truncated);
        }
        assert(region.subrange(0, 8) =~= data@.subrange(pos as int, pos + 8));
        let bits = read_u64_at(data, pos);
        Ok((Bson::DateTime(u64_to_i64_bits(bits)), pos + 8))
    } else if tag == 0x0a {
        Ok((Bson::Null, pos))
    } else if tag == 0x0b {
        let (p, np1) = match decode_cstring_at(data, pos, end, lossy) {
            Ok(x) => x,
            Err(e) => {
                return Err(e);
            },
        };
        assert(region.subrange(np1 - pos, region.len() as int) =~= data@.subrange(
            np1 as int,
            end as int,
        ));
        match decode_cstring_at(data, np1, end, lossy) {
            Ok((o, np2)) => Ok((Bson::Regex(p, o), np2)),
            Err(e) => Err(e),
        }
    } else if tag == 0x0c {
        let (ns, np) = match decode_string_at(data, pos, end, lossy) {
            Ok(x) => x,
            Err(e) => {
                return Err(e);
            },
        };
        if end - np < 12 {
            return Err(DecodeError::Truncated);
        }
        let id = vstd::slice::slice_to_vec(vstd::slice::slice_subrange(data, np, np + 12));
        assert(region.subrange(np - pos, np - pos + 12) =~= data@.subrange(np as int, np + 12));
        Ok((Bson::DbPointer(ns, id), np + 12))
    } else if tag == 0x0d {
        match decode_string_at(data, pos, end, lossy) {
            Ok((t, np)) => Ok((Bson::JavaScriptCode(t), np)),
            Err(e) => Err(e),
        }
    } else if tag == 0x0f {
        decode_code_scope_at(data, pos, end, lossy)
    } else if tag == 0x10 {
        if end - pos < 4 {
            return Err(DecodeError::Truncated);
        }
        assert(region.subrange(0, 4) =~= data@.subrange(pos as int, pos + 4));
        let w = read_u32_at(data, pos);
        Ok((Bson::Int32(u32_to_i32_bits(w)), pos + 4))
    } else if tag == 0x11 {
        if end - pos < 8 {
            return Err(DecodeError::Truncated);
        }
        assert(region.subrange(0, 4) =~= data@.subrange(pos as int, pos + 4));
        assert(region.subrange(4, 8) =~= data@.subrange(pos + 4, pos + 8));
        let increment = read_u32_at(data, pos);
        let time = read_u32_at(data, pos + 4);
        Ok((Bson::Timestamp(Timestamp { time, increment }), pos + 8))
    } else if tag == 0x12 {
        if end - pos < 8 {
            return Err(DecodeError::Truncated);
        }
        assert(region.subrange(0, 8) =~= data@.subrange(pos as int, pos + 8));
        let bits = read_u64_at(data, pos);
        Ok((Bson::Int64(u64_to_i64_bits(bits)), pos + 8))
    } else if tag == 0x13 {
        if end - pos < 16 {
            return Err(DecodeError::Truncated);
        }
        let b = vstd::slice::slice_to_vec(vstd::slice::slice_subrange(data, pos, pos + 16));
        assert(region.subrange(0, 16) =~= data@.subrange(pos as int, pos + 16));
        Ok((Bson::Decimal128(b), pos + 16))
    } else if tag == 0xff {
        Ok((Bson::MinKey, pos))
    } else if tag == 0x7f {
        Ok((Bson::MaxKey, pos))
    } else {
        Err(DecodeError::UnknownTag)
    }
}

/// Parses the element region `[pos, end)`, as [`dec_elements`] does:
/// elements until the region is exhausted.
fn decode_elements_at(data: &[u8], pos: usize, end: usize, lossy: bool) -> (r: Result<
    Vec<(Vec<u8>, Bson)>,
    DecodeError,
>)
    requires
        pos <= end <= data@.len(),
    ensures
        match r {
            Ok(es) => dec_elements(data@.subrange(pos as int, end as int), lossy) == Some(
                entries_view_from(es@, 0),
            ),
            Err(_) => dec_elements(data@.subrange(pos as int, end as int), lossy) is None,
        },
    decreases end - pos, 0int,
{
    let ghost region0 = data@.subrange(pos as int, end as int);
    let mut acc: Vec<(Vec<u8>, Bson)> = Vec::new();
    let mut cur: usize = pos;
    proof {
        assert(entries_view_from(acc@, 0) =~= Seq::<(Seq<u8>, BsonV)>::empty());
    }
    while cur < end
        invariant
            pos <= cur <= end <= data@.len(),
            region0 == data@.subrange(pos as int, end as int),
            match dec_elements(data@.subrange(cur as int, end as int), lossy) {
                Some(rest) => dec_elements(region0, lossy) == Some(
                    entries_view_from(acc@, 0) + rest,
                ),
                None => dec_elements(region0, lossy) is None,
            },
        decreases end - cur,
    {
        let ghost region = data@.subrange(cur as int, end as int);
        let ghost acc0 = acc@;
        assert(region[0] == data@[cur as int]);
        let tag = data[cur];
        if tag == 0 {
            return Err(DecodeError::LengthMismatch);
        }
        assert(region.drop_first() =~= data@.subrange(cur + 1, end as int));
        let (key, np1) = match decode_cstring_at(data, cur + 1, end, lossy) {
            Ok(x) => x,
            Err(e) => {
                return Err(e);
            },
        };
        let ghost kc = np1 - (cur + 1);
        assert(region.subrange(1 + kc, region.len() as int) =~= data@.subrange(
            np1 as int,
            end as int,
        ));
        let (v, np2) = match decode_value_at(data, np1, end, tag, lossy) {
            Ok(x) => x,
            Err(e) => {
                return Err(e);
            },
        };
        let ghost c = np2 - np1;
        proof {
            lemma_dec_value_sound(tag, data@.subrange(np1 as int, end as int), lossy);
            assert(el_tag(v@) == tag);
            assert(region.subrange(1 + kc + c, region.len() as int) =~= data@.subrange(
                np2 as int,
                end as int,
            ));
            assert(dec_elements(region, lossy) == match dec_elements(
                data@.subrange(np2 as int, end as int),
                lossy,
            ) {
                Some(rest) => Some(seq![(key@, v@)] + rest),
                None => None::<Seq<(Seq<u8>, BsonV)>>,
            });
        }
        acc.push((key, v));
        proof {
            lemma_entries_view_push(acc0, acc@[acc@.len() - 1].0, acc@[acc@.len() - 1].1);
            assert(acc@ == acc0.push(acc@[acc@.len() - 1]));
            match dec_elements(data@.subrange(np2 as int, end as int), lossy) {
                Some(rest) => {
                    assert(entries_view_from(acc@, 0) + rest =~= entries_view_from(acc0, 0) + (seq![
                        (acc@[acc@.len() - 1].0@, bson_view(acc@[acc@.len() - 1].1)),
                    ] + rest));
                },
                None => {},
            }
        }
        cur = np2;
    }
    assert(data@.subrange(cur as int, end as int) =~= Seq::<u8>::empty());
    assert(dec_elements(region0, lossy) == Some(
        entries_view_from(acc@, 0) + Seq::<(Seq<u8>, BsonV)>::empty(),
    ));
    assert(entries_view_from(acc@, 0) + Seq::<(Seq<u8>, BsonV)>::empty() =~= entries_view_from(
        acc@,
        0,
    ));
    Ok(acc)
}

/// Parses a whole document filling `[pos, end)`, as [`dec_doc`] does.
pub fn decode_doc_at(data: &[u8], pos: usize, end: usize, lossy: bool) -> (r: Result<
    Vec<(Vec<u8>, Bson)>,
    DecodeError,
>)
    requires
        pos <= end <= data@.len(),
    ensures
        match r {
            Ok(es) => dec_doc(data@.subrange(pos as int, end as int), lossy) == Some(
                entries_view_from(es@, 0),
            ),
            Err(_) => dec_doc(data@.subrange(pos as int, end as int), lossy) is None,
        },
    decreases end - pos, 1int,
{
    let ghost region = data@.subrange(pos as int, end as int);
    if end - pos < 5 {
        return Err(DecodeError::Truncated);
    }
    if end - pos > MAX_DOCUMENT_LEN {
        return Err(DecodeError::LengthMismatch);
    }
    assert(region.subrange(0, 4) =~= data@.subrange(pos as int, pos + 4));
    let dl = read_u32_at(data, pos);
    if dl != (end - pos) as u32 {
        return Err(DecodeError::LengthMismatch);
    }
    assert(region[region.len() - 1] == data@[end - 1]);
    if data[end - 1] != 0 {
        return Err(DecodeError::LengthMismatch);
    }
    assert(region.subrange(4, region.len() - 1) =~= data@.subrange(pos + 4, end - 1));
    decode_elements_at(data, pos + 4, end - 1, lossy)
}

/// Decodes a whole buffer as one document, rejecting any byte pattern the
/// format does not define: exactly when [`dec_doc`] accepts the bytes,
/// the entries returned are its parse.
pub fn decode_document(data: &[u8]) -> (r: Result<Vec<(Vec<u8>, Bson)>, DecodeError>)
    ensures
        match r {
            Ok(es) => dec_doc(data@, false) == Some(entries_view_from(es@, 0)),
            Err(_) => dec_doc(data@, false) is None,
        },
{
    let n = data.len();
    assert(data@.subrange(0, n as int) =~= data@);
    decode_doc_at(data, 0, n, false)
}

/// Decodes a whole buffer as one document, repairing ill-formed UTF-8
/// inside strings and keys with the replacement character instead of
/// rejecting it. On well-formed input it agrees with [`decode_document`].
pub fn decode_document_utf8_lossy(data: &[u8]) -> (r: Result<Vec<(Vec<u8>, Bson)>, DecodeError>)
    ensures
        match r {
            Ok(es) => dec_doc(data@, true) == Some(entries_view_from(es@, 0)),
            Err(_) => dec_doc(data@, true) is None,
        },
{
    let n = data.len();
    assert(data@.subrange(0, n as int) =~= data@);
    decode_doc_at(data, 0, n, true)
}

} // verus!
