//! The raw view: an ownership-free, lazily validated window over encoded
//! bytes a caller owns. Each access validates only the bytes it touches;
//! byte-like payloads are handed out as borrows of the underlying buffer,
//! and only fixed-width scalars are copied.

use vstd::prelude::*;
use crate::decoding::{dec_cstring, dec_string, DecodeError};
use crate::encoding::MAX_DOCUMENT_LEN;
use crate::text::is_valid_utf8;
use crate::encoding::{i32_of_u32, i64_of_u64, u32_to_i32_bits, u64_to_i64_bits};
use crate::value::Timestamp;
use vstd::bytes::spec_u32_from_le_bytes;

verus! {

/// A reference to one value inside a raw document: byte-like payloads
/// borrow from the buffer, fixed-width scalars are copied. An embedded
/// document or array is handed out as its whole byte region, validated no
/// deeper than its header.
pub enum RawValueRef<'a> {
    Double(u64),
    String(&'a [u8]),
    Document(&'a [u8]),
    Array(&'a [u8]),
    Binary(u8, &'a [u8]),
    Undefined,
    ObjectId(&'a [u8]),
    Boolean(bool),
    DateTime(i64),
    Null,
    Regex(&'a [u8], &'a [u8]),
    DbPointer(&'a [u8], &'a [u8]),
    JavaScriptCode(&'a [u8]),
    JavaScriptCodeWithScope(&'a [u8], &'a [u8]),
    Int32(i32),
    Timestamp(Timestamp),
    Int64(i64),
    Decimal128(&'a [u8]),
    MinKey,
    MaxKey,
}

/// The mathematical view of a [`RawValueRef`]: the same shape over byte
/// sequences.
pub enum RawRefV {
    Double(u64),
    String(Seq<u8>),
    Document(Seq<u8>),
    Array(Seq<u8>),
    Binary(u8, Seq<u8>),
    Undefined,
    ObjectId(Seq<u8>),
    Boolean(bool),
    DateTime(i64),
    Null,
    Regex(Seq<u8>, Seq<u8>),
    DbPointer(Seq<u8>, Seq<u8>),
    JavaScriptCode(Seq<u8>),
    JavaScriptCodeWithScope(Seq<u8>, Seq<u8>),
    Int32(i32),
    Timestamp(Timestamp),
    Int64(i64),
    Decimal128(Seq<u8>),
    MinKey,
    MaxKey,
}

impl<'a> View for RawValueRef<'a> {
    type V = RawRefV;

    open spec fn view(&self) -> RawRefV {
        match *self {
            RawValueRef::Double(bits) => RawRefV::Double(bits),
            RawValueRef::String(s) => RawRefV::String(s@),
            RawValueRef::Document(s) => RawRefV::Document(s@),
            RawValueRef::Array(s) => RawRefV::Array(s@),
            RawValueRef::Binary(t, s) => RawRefV::Binary(t, s@),
            RawValueRef::Undefined => RawRefV::Undefined,
            RawValueRef::ObjectId(s) => RawRefV::ObjectId(s@),
            RawValueRef::Boolean(b) => RawRefV::Boolean(b),
            RawValueRef::DateTime(ms) => RawRefV::DateTime(ms),
            RawValueRef::Null => RawRefV::Null,
            RawValueRef::Regex(p, o) => RawRefV::Regex(p@, o@),
            RawValueRef::DbPointer(ns, id) => RawRefV::DbPointer(ns@, id@),
            RawValueRef::JavaScriptCode(c) => RawRefV::JavaScriptCode(c@),
            RawValueRef::JavaScriptCodeWithScope(c, s) => RawRefV::JavaScriptCodeWithScope(c@, s@),
            RawValueRef::Int32(x) => RawRefV::Int32(x),
            RawValueRef::Timestamp(t) => RawRefV::Timestamp(t),
            RawValueRef::Int64(x) => RawRefV::Int64(x),
            RawValueRef::Decimal128(s) => RawRefV::Decimal128(s@),
            RawValueRef::MinKey => RawRefV::MinKey,
            RawValueRef::MaxKey => RawRefV::MaxKey,
        }
    }
}

/// The immediately checkable frame of a document region: a length prefix
/// that matches the region, within the size ceiling, and a terminator.
pub open spec fn shallow_header_ok(s: Seq<u8>) -> bool {
    &&& 5 <= s.len() <= MAX_DOCUMENT_LEN
    &&& spec_u32_from_le_bytes(s.subrange(0, 4)) == s.len()
    &&& s[s.len() - 1] == 0u8
}

/// Parses one value of kind `tag` at the start of `s`, validating only
/// the bytes that belong to it: an embedded document or array is checked
/// no deeper than its frame and handed out whole.
pub open spec fn shallow_value(tag: u8, s: Seq<u8>) -> Option<(RawRefV, int)> {
    if tag == 0x01 {
        if s.len() >= 8 {
            Some((RawRefV::Double(vstd::bytes::spec_u64_from_le_bytes(s.subrange(0, 8))), 8))
        } else {
            None
        }
    } else if tag == 0x02 {
        match dec_string(s, false) {
            Some((t, c)) => Some((RawRefV::String(t), c)),
            None => None,
        }
    } else if tag == 0x03 || tag == 0x04 {
        if s.len() >= 4 {
            let dl = spec_u32_from_le_bytes(s.subrange(0, 4)) as int;
            if 5 <= dl <= s.len() && dl <= MAX_DOCUMENT_LEN && s[dl - 1] == 0u8 {
                if tag == 0x03 {
                    Some((RawRefV::Document(s.subrange(0, dl)), dl))
                } else {
                    Some((RawRefV::Array(s.subrange(0, dl)), dl))
                }
            } else {
                None
            }
        } else {
            None
        }
    } else if tag == 0x05 {
        if s.len() >= 5 {
            let bl = spec_u32_from_le_bytes(s.subrange(0, 4)) as int;
            if bl <= MAX_DOCUMENT_LEN && 5 + bl <= s.len() {
                Some((RawRefV::Binary(s[4], s.subrange(5, 5 + bl)), 5 + bl))
            } else {
                None
            }
        } else {
            None
        }
    } else if tag == 0x06 {
        Some((RawRefV::Undefined, 0))
    } else if tag == 0x07 {
        if s.len() >= 12 {
            Some((RawRefV::ObjectId(s.subrange(0, 12)), 12))
        } else {
            None
        }
    } else if tag == 0x08 {
        if s.len() >= 1 && (s[0] == 0u8 || s[0] == 1u8) {
            Some((RawRefV::Boolean(s[0] == 1u8), 1))
        } else {
            None
        }
    } else if tag == 0x09 {
        if s.len() >= 8 {
            Some(
                (
                    RawRefV::DateTime(
                        crate::encoding::i64_of_u64(
                            vstd::bytes::spec_u64_from_le_bytes(s.subrange(0, 8)),
                        ),
                    ),
                    8,
                ),
            )
        } else {
            None
        }
    } else if tag == 0x0a {
        Some((RawRefV::Null, 0))
    } else if tag == 0x0b {
        match dec_cstring(s, false) {
            Some((p, pc)) => match dec_cstring(s.subrange(pc, s.len() as int), false) {
                Some((o, oc)) => Some((RawRefV::Regex(p, o), pc + oc)),
                None => None,
            },
            None => None,
        }
    } else if tag == 0x0c {
        match dec_string(s, false) {
            Some((ns, c)) => if c + 12 <= s.len() {
                Some((RawRefV::DbPointer(ns, s.subrange(c, c + 12)), c + 12))
            } else {
                None
            },
            None => None,
        }
    } else if tag == 0x0d {
        match dec_string(s, false) {
            Some((t, c)) => Some((RawRefV::JavaScriptCode(t), c)),
            None => None,
        }
    } else if tag == 0x0f {
        if s.len() >= 4 {
            let total = spec_u32_from_le_bytes(s.subrange(0, 4)) as int;
            if 10 <= total <= s.len() && total <= MAX_DOCUMENT_LEN {
                match dec_string(s.subrange(4, total), false) {
                    Some((code, cc)) => if 5 <= cc && 4 + cc <= total && shallow_header_ok(
                        s.subrange(4 + cc, total),
                    ) {
                        Some((RawRefV::JavaScriptCodeWithScope(code, s.subrange(4 + cc, total)), total))
                    } else {
                        None
                    },
                    None => None,
                }
            } else {
                None
            }
        } else {
            None
        }
    } else if tag == 0x10 {
        if s.len() >= 4 {
            Some(
                (
                    RawRefV::Int32(
                        crate::encoding::i32_of_u32(spec_u32_from_le_bytes(s.subrange(0, 4))),
                    ),
                    4,
                ),
            )
        } else {
            None
        }
    } else if tag == 0x11 {
        if s.len() >= 8 {
            Some(
                (
                    RawRefV::Timestamp(
                        Timestamp {
                            increment: spec_u32_from_le_bytes(s.subrange(0, 4)),
                            time: spec_u32_from_le_bytes(s.subrange(4, 8)),
                        },
                    ),
                    8,
                ),
            )
        } else {
            None
        }
    } else if tag == 0x12 {
        if s.len() >= 8 {
            Some(
                (
                    RawRefV::Int64(
                        crate::encoding::i64_of_u64(
                            vstd::bytes::spec_u64_from_le_bytes(s.subrange(0, 8)),
                        ),
                    ),
                    8,
                ),
            )
        } else {
            None
        }
    } else if tag == 0x13 {
        if s.len() >= 16 {
            Some((RawRefV::Decimal128(s.subrange(0, 16)), 16))
        } else {
            None
        }
    } else if tag == 0xff {
        Some((RawRefV::MinKey, 0))
    } else if tag == 0x7f {
        Some((RawRefV::MaxKey, 0))
    } else {
        None
    }
}

/// Parses one element of the document bytes `s` at offset `i`: the tag,
/// the key, and the value, whose bytes must end before the terminator.
/// Returns the key, the value, and the offset after the element.
pub open spec fn shallow_elem(s: Seq<u8>, i: int) -> Option<(Seq<u8>, RawRefV, int)> {
    if 4 <= i < s.len() - 1 && s[i] != 0u8 {
        match dec_cstring(s.subrange(i + 1, s.len() - 1), false) {
            Some((k, kc)) => if 1 <= kc && i + 1 + kc <= s.len() - 1 {
                match shallow_value(s[i], s.subrange(i + 1 + kc, s.len() - 1)) {
                    Some((v, c)) => if 0 <= c && i + 1 + kc + c <= s.len() - 1 {
                        Some((k, v, i + 1 + kc + c))
                    } else {
                        None
                    },
                    None => None,
                }
            } else {
                None
            },
            None => None,
        }
    } else {
        None
    }
}

/// True when offset `i` stands on the document's terminator: iteration is
/// complete there.
pub open spec fn at_terminator(s: Seq<u8>, i: int) -> bool {
    i == s.len() - 1
}

/// What looking a key up in the raw bytes yields: the first element whose
/// key matches, scanning front to back; nothing if the key is absent; an
/// error if a malformed element stands before any match.
pub open spec fn spec_get(s: Seq<u8>, i: int, key: Seq<u8>) -> Result<Option<RawRefV>, ()>
    decreases s.len() - i,
{
    if at_terminator(s, i) {
        Ok(None)
    } else {
        match shallow_elem(s, i) {
            Some((k, v, np)) => if k == key {
                Ok(Some(v))
            } else if i < np <= s.len() - 1 {
                spec_get(s, np, key)
            } else {
                Err(())
            },
            None => Err(()),
        }
    }
}

/// What looking an index up in the raw bytes yields, counting elements
/// from the front: the `n`th element's value, nothing if the array is
/// shorter, an error if a malformed element stands before it.
pub open spec fn spec_get_nth(s: Seq<u8>, i: int, n: int) -> Result<Option<RawRefV>, ()>
    decreases s.len() - i,
{
    if at_terminator(s, i) {
        Ok(None)
    } else {
        match shallow_elem(s, i) {
            Some((_k, v, np)) => if n == 0 {
                Ok(Some(v))
            } else if i < np <= s.len() - 1 {
                spec_get_nth(s, np, n - 1)
            } else {
                Err(())
            },
            None => Err(()),
        }
    }
}


/// Lazy iteration in the aggregate: when the first `n` elements of a
/// document parse one after another, each handing the position of the
/// next, and the bytes where element `n` would stand parse as neither an
/// element nor the terminator, then access by position reaches every one
/// of the `n` valid elements and fails exactly from the invalid one on.
pub proof fn lemma_lazy_prefix_access(s: Seq<u8>, positions: Seq<int>, vals: Seq<RawRefV>, n: int)
    requires
        0 <= n,
        positions.len() == n + 1,
        vals.len() == n,
        positions[0] == 4,
        forall|k: int|
            0 <= k < n ==> ((#[trigger] shallow_elem(s, positions[k])) matches Some(kv) && kv.1
                == vals[k] && kv.2 == positions[k + 1]),
        forall|k: int| 0 <= k <= n ==> 4 <= #[trigger] positions[k] <= s.len() - 1,
        !at_terminator(s, positions[n]),
        shallow_elem(s, positions[n]) is None,
    ensures
        forall|k: int|
            0 <= k < n ==> #[trigger] spec_get_nth(s, 4, k) == Ok::<Option<RawRefV>, ()>(
                Some(vals[k]),
            ),
        forall|k: int| k >= n ==> #[trigger] spec_get_nth(s, 4, k) is Err,
{
    assert forall|k: int|
        0 <= k < n implies #[trigger] spec_get_nth(s, 4, k) == Ok::<Option<RawRefV>, ()>(
        Some(vals[k]),
    ) by {
        lemma_lazy_prefix_access_from(s, positions, vals, n, 0, k);
    }
    assert forall|k: int| k >= n implies #[trigger] spec_get_nth(s, 4, k) is Err by {
        lemma_lazy_prefix_access_from(s, positions, vals, n, 0, k);
    }
}

/// One walk of the access recursion along the parsed element chain.
proof fn lemma_lazy_prefix_access_from(
    s: Seq<u8>,
    positions: Seq<int>,
    vals: Seq<RawRefV>,
    n: int,
    j: int,
    k: int,
)
    requires
        0 <= j <= n,
        j <= k,
        positions.len() == n + 1,
        vals.len() == n,
        forall|kk: int|
            0 <= kk < n ==> ((#[trigger] shallow_elem(s, positions[kk])) matches Some(kv) && kv.1
                == vals[kk] && kv.2 == positions[kk + 1]),
        forall|kk: int| 0 <= kk <= n ==> 4 <= #[trigger] positions[kk] <= s.len() - 1,
        !at_terminator(s, positions[n]),
        shallow_elem(s, positions[n]) is None,
    ensures
        k < n ==> spec_get_nth(s, positions[j], k - j) == Ok::<Option<RawRefV>, ()>(
            Some(vals[k]),
        ),
        k >= n ==> spec_get_nth(s, positions[j], k - j) is Err,
    decreases n - j,
{
    if j < n {
        let kv = shallow_elem(s, positions[j])->Some_0;
        assert(!at_terminator(s, positions[j]));
        if k > j {
            lemma_lazy_prefix_access_from(s, positions, vals, n, j + 1, k);
        }
    }
}

/// Borrows a length-prefixed string at `pos`, as [`dec_string`] reads it,
/// without copying.
fn borrow_string_at<'a>(data: &'a [u8], pos: usize, end: usize) -> (r: Result<
    (&'a [u8], usize),
    DecodeError,
>)
    requires
        pos <= end <= data@.len(),
    ensures
        match r {
            Ok((t, np)) => pos < np <= end && dec_string(
                data@.subrange(pos as int, end as int),
                false,
            ) == Some((t@, np - pos)),
            Err(_) => dec_string(data@.subrange(pos as int, end as int), false) is None,
        },
{
    let ghost region = data@.subrange(pos as int, end as int);
    let n_all = data.len();
    if end - pos < 4 {
        return Err(DecodeError::Truncated);
    }
    assert(region.subrange(0, 4) =~= data@.subrange(pos as int, pos + 4));
    let n = vstd::bytes::u32_from_le_bytes(vstd::slice::slice_subrange(data, pos, pos + 4));
    if n < 1 || n > MAX_DOCUMENT_LEN as u32 {
        return Err(DecodeError::LengthMismatch);
    }
    let n = n as usize;
    if n > end - pos - 4 {
        return Err(DecodeError::Truncated);
    }
    assert(region[4 + n - 1] == data@[pos + 4 + n - 1]);
    if data[pos + 4 + n - 1] != 0 {
        return Err(DecodeError::LengthMismatch);
    }
    let t = vstd::slice::slice_subrange(data, pos + 4, pos + 4 + n - 1);
    assert(region.subrange(4, 4 + n - 1) =~= t@);
    if !is_valid_utf8(t) {
        return Err(DecodeError::InvalidUtf8);
    }
    Ok((t, pos + 4 + n))
}

/// Borrows a C-string at `pos`, as [`dec_cstring`] reads it, without
/// copying.
fn borrow_cstring_at<'a>(data: &'a [u8], pos: usize, end: usize) -> (r: Result<
    (&'a [u8], usize),
    DecodeError,
>)
    requires
        pos <= end <= data@.len(),
    ensures
        match r {
            Ok((t, np)) => pos < np <= end && dec_cstring(
                data@.subrange(pos as int, end as int),
                false,
            ) == Some((t@, np - pos)),
            Err(_) => dec_cstring(data@.subrange(pos as int, end as int), false) is None,
        },
{
    let ghost region = data@.subrange(pos as int, end as int);
    let mut i: usize = pos;
    proof {
        crate::decoding::lemma_find_nul(region);
    }
    while i < end
        invariant
            pos <= i <= end <= data@.len(),
            region == data@.subrange(pos as int, end as int),
            forall|j: int| 0 <= j < i - pos ==> region[j] != 0u8,
        decreases end - i,
    {
        assert(region[i - pos] == data@[i as int]);
        if data[i] == 0 {
            proof {
                crate::decoding::lemma_find_nul(region);
                match crate::decoding::find_nul(region) {
                    Some(k) => {
                        if k < i - pos {
                            assert(region[k] != 0u8);
                        } else if k > i - pos {
                            assert(region[i - pos] != 0u8);
                        }
                    },
                    None => {
                        assert(region[i - pos] != 0u8);
                    },
                }
            }
            let t = vstd::slice::slice_subrange(data, pos, i);
            assert(region.subrange(0, i - pos) =~= t@);
            if !is_valid_utf8(t) {
                return Err(DecodeError::InvalidUtf8);
            }
            return Ok((t, i + 1));
        }
        i = i + 1;
    }
    proof {
        crate::decoding::lemma_find_nul(region);
        if crate::decoding::find_nul(region) is Some {
            let k = crate::decoding::find_nul(region)->Some_0;
            assert(region[k] != 0u8);
        }
    }
    Err(DecodeError::UnterminatedKey)
}

/// Parses one value of kind `tag` at `pos`, as [`shallow_value`] does on
/// the region `[pos, end)`, handing byte-like payloads out as borrows.
#[verifier::rlimit(60)]
fn shallow_value_at<'a>(data: &'a [u8], pos: usize, end: usize, tag: u8) -> (r: Result<
    (RawValueRef<'a>, usize),
    DecodeError,
>)
    requires
        pos <= end <= data@.len(),
    ensures
        match r {
            Ok((v, np)) => pos <= np <= end && shallow_value(
                tag,
                data@.subrange(pos as int, end as int),
            ) == Some((v@, np - pos)),
            Err(_) => shallow_value(tag, data@.subrange(pos as int, end as int)) is None,
        },
{
    let ghost region = data@.subrange(pos as int, end as int);
    let n_all = data.len();
    if tag == 0x01 {
        if end - pos < 8 {
            return Err(DecodeError::Truncated);
        }
        assert(region.subrange(0, 8) =~= data@.subrange(pos as int, pos + 8));
        let bits = vstd::bytes::u64_from_le_bytes(vstd::slice::slice_subrange(data, pos, pos + 8));
        Ok((RawValueRef::Double(bits), pos + 8))
    } else if tag == 0x02 {
        match borrow_string_at(data, pos, end) {
            Ok((t, np)) => Ok((RawValueRef::String(t), np)),
            Err(e) => Err(e),
        }
    } else if tag == 0x03 || tag == 0x04 {
        if end - pos < 4 {
            return Err(DecodeError::Truncated);
        }
        assert(region.subrange(0, 4) =~= data@.subrange(pos as int, pos + 4));
        let dl32 = vstd::bytes::u32_from_le_bytes(vstd::slice::slice_subrange(data, pos, pos + 4));
        if dl32 < 5 || dl32 > MAX_DOCUMENT_LEN as u32 || dl32 as usize > end - pos {
            return Err(DecodeError::LengthMismatch);
        }
        let dl = dl32 as usize;
        assert(region[dl - 1] == data@[pos + dl - 1]);
        if data[pos + dl - 1] != 0 {
            return Err(DecodeError::LengthMismatch);
        }
        let region_slice = vstd::slice::slice_subrange(data, pos, pos + dl);
        assert(region.subrange(0, dl as int) =~= region_slice@);
        if tag == 0x03 {
            Ok((RawValueRef::Document(region_slice), pos + dl))
        } else {
            Ok((RawValueRef::Array(region_slice), pos + dl))
        }
    } else if tag == 0x05 {
        if end - pos < 5 {
            return Err(DecodeError::Truncated);
        }
        assert(region.subrange(0, 4) =~= data@.subrange(pos as int, pos + 4));
        let bl32 = vstd::bytes::u32_from_le_bytes(vstd::slice::slice_subrange(data, pos, pos + 4));
        if bl32 > MAX_DOCUMENT_LEN as u32 {
            return Err(DecodeError::LengthMismatch);
        }
        let bl = bl32 as usize;
        if bl > end - pos - 5 {
            return Err(DecodeError::Truncated);
        }
        assert(region[4] == data@[pos + 4]);
        let subtype = data[pos + 4];
        let payload = vstd::slice::slice_subrange(data, pos + 5, pos + 5 + bl);
        assert(region.subrange(5, 5 + bl as int) =~= payload@);
        Ok((RawValueRef::Binary(subtype, payload), pos + 5 + bl))
    } else if tag == 0x06 {
        Ok((RawValueRef::Undefined, pos))
    } else if tag == 0x07 {
        if end - pos < 12 {
            return Err(DecodeError::Truncated);
        }
        let b = vstd::slice::slice_subrange(data, pos, pos + 12);
        assert(region.subrange(0, 12) =~= b@);
        Ok((RawValueRef::ObjectId(b), pos + 12))
    } else if tag == 0x08 {
        if end - pos < 1 {
            return Err(DecodeError::Truncated);
        }
        assert(region[0] == data@[pos as int]);
        let b = data[pos];
        if b > 1 {
            return Err(DecodeError::InvalidValue);
        }
        Ok((RawValueRef::Boolean(b == 1), pos + 1))
    } else if tag == 0x09 {
        if end - pos < 8 {
            return Err(DecodeError::Truncated);
        }
        assert(region.subrange(0, 8) =~= data@.subrange(pos as int, pos + 8));
        let bits = vstd::bytes::u64_from_le_bytes(vstd::slice::slice_subrange(data, pos, pos + 8));
        Ok((RawValueRef::DateTime(u64_to_i64_bits(bits)), pos + 8))
    } else if tag == 0x0a {
        Ok((RawValueRef::Null, pos))
    } else if tag == 0x0b {
        let (p, np1) = match borrow_cstring_at(data, pos, end) {
            Ok(x) => x,
            Err(e) => {
                return Err(e);
            },
        };
        assert(region.subrange(np1 - pos, region.len() as int) =~= data@.subrange(
            np1 as int,
            end as int,
        ));
        match borrow_cstring_at(data, np1, end) {
            Ok((o, np2)) => Ok((RawValueRef::Regex(p, o), np2)),
            Err(e) => Err(e),
        }
    } else if tag == 0x0c {
        let (ns, np) = match borrow_string_at(data, pos, end) {
            Ok(x) => x,
            Err(e) => {
                return Err(e);
            },
        };
        if end - np < 12 {
            return Err(DecodeError::Truncated);
        }
        let id = vstd::slice::slice_subrange(data, np, np + 12);
        assert(region.subrange(np - pos, np - pos + 12) =~= id@);
        Ok((RawValueRef::DbPointer(ns, id), np + 12))
    } else if tag == 0x0d {
        match borrow_string_at(data, pos, end) {
            Ok((t, np)) => Ok((RawValueRef::JavaScriptCode(t), np)),
            Err(e) => Err(e),
        }
    } else if tag == 0x0f {
        if end - pos < 4 {
            return Err(DecodeError::Truncated);
        }
        assert(region.subrange(0, 4) =~= data@.subrange(pos as int, pos + 4));
        let total32 = vstd::bytes::u32_from_le_bytes(vstd::slice::slice_subrange(
            data,
            pos,
            pos + 4,
        ));
        if total32 < 10 || total32 > MAX_DOCUMENT_LEN as u32 || total32 as usize > end - pos {
            return Err(DecodeError::LengthMismatch);
        }
        let total = total32 as usize;
        assert(region.subrange(4, total as int) =~= data@.subrange(pos + 4, pos + total));
        let (code, np1) = match borrow_string_at(data, pos + 4, pos + total) {
            Ok(x) => x,
            Err(e) => {
                return Err(e);
            },
        };
        proof {
            crate::roundtrip::lemma_dec_string_sound(data@.subrange(pos + 4, pos + total), false);
        }
        let scope = vstd::slice::slice_subrange(data, np1, pos + total);
        assert(region.subrange(np1 - pos, total as int) =~= scope@);
        if scope.len() < 5 {
            return Err(DecodeError::Truncated);
        }
        assert(scope@.subrange(0, 4) =~= data@.subrange(np1 as int, np1 + 4));
        let sl32 = vstd::bytes::u32_from_le_bytes(vstd::slice::slice_subrange(data, np1, np1 + 4));
        if sl32 as usize != scope.len() {
            return Err(DecodeError::LengthMismatch);
        }
        assert(scope@[scope@.len() - 1] == data@[pos + total - 1]);
        if data[pos + total - 1] != 0 {
            return Err(DecodeError::LengthMismatch);
        }
        Ok((RawValueRef::JavaScriptCodeWithScope(code, scope), pos + total))
    } else if tag == 0x10 {
        if end - pos < 4 {
            return Err(DecodeError::Truncated);
        }
        assert(region.subrange(0, 4) =~= data@.subrange(pos as int, pos + 4));
        let w = vstd::bytes::u32_from_le_bytes(vstd::slice::slice_subrange(data, pos, pos + 4));
        Ok((RawValueRef::Int32(u32_to_i32_bits(w)), pos + 4))
    } else if tag == 0x11 {
        if end - pos < 8 {
            return Err(DecodeError::Truncated);
        }
        assert(region.subrange(0, 4) =~= data@.subrange(pos as int, pos + 4));
        assert(region.subrange(4, 8) =~= data@.subrange(pos + 4, pos + 8));
        let increment = vstd::bytes::u32_from_le_bytes(vstd::slice::slice_subrange(
            data,
            pos,
            pos + 4,
        ));
        let time = vstd::bytes::u32_from_le_bytes(vstd::slice::slice_subrange(
            data,
            pos + 4,
            pos + 8,
        ));
        Ok((RawValueRef::Timestamp(Timestamp { time, increment }), pos + 8))
    } else if tag == 0x12 {
        if end - pos < 8 {
            return Err(DecodeError::Truncated);
        }
        assert(region.subrange(0, 8) =~= data@.subrange(pos as int, pos + 8));
        let bits = vstd::bytes::u64_from_le_bytes(vstd::slice::slice_subrange(data, pos, pos + 8));
        Ok((RawValueRef::Int64(u64_to_i64_bits(bits)), pos + 8))
    } else if tag == 0x13 {
        if end - pos < 16 {
            return Err(DecodeError::Truncated);
        }
        let b = vstd::slice::slice_subrange(data, pos, pos + 16);
        assert(region.subrange(0, 16) =~= b@);
        Ok((RawValueRef::Decimal128(b), pos + 16))
    } else if tag == 0xff {
        Ok((RawValueRef::MinKey, pos))
    } else if tag == 0x7f {
        Ok((RawValueRef::MaxKey, pos))
    } else {
        Err(DecodeError::UnknownTag)
    }
}

/// Parses one element of the document bytes at offset `pos`, as
/// [`shallow_elem`] does.
fn shallow_elem_at<'a>(data: &'a [u8], pos: usize) -> (r: Result<
    (&'a [u8], RawValueRef<'a>, usize),
    DecodeError,
>)
    requires
        5 <= data@.len(),
        4 <= pos < data@.len() - 1,
    ensures
        match r {
            Ok((k, v, np)) => pos < np <= data@.len() - 1 && shallow_elem(data@, pos as int)
                == Some((k@, v@, np as int)),
            Err(_) => shallow_elem(data@, pos as int) is None,
        },
{
    let n = data.len();
    let tag = data[pos];
    if tag == 0 {
        return Err(DecodeError::LengthMismatch);
    }
    assert(data@.subrange(pos + 1, n - 1) =~= data@.subrange(pos + 1, data@.len() - 1));
    let (k, np1) = match borrow_cstring_at(data, pos + 1, n - 1) {
        Ok(x) => x,
        Err(e) => {
            return Err(e);
        },
    };
    assert(data@.subrange(np1 as int, n - 1) =~= data@.subrange(np1 as int, data@.len() - 1));
    match shallow_value_at(data, np1, n - 1, tag) {
        Ok((v, np2)) => Ok((k, v, np2)),
        Err(e) => Err(e),
    }
}

/// A borrowing view over one encoded document. Constructing it checks
/// only the frame: the length prefix, the ceiling, and the terminator;
/// elements are validated one at a time as they are reached.
pub struct RawDocument<'a> {
    data: &'a [u8],
}

impl<'a> View for RawDocument<'a> {
    type V = Seq<u8>;

    closed spec fn view(&self) -> Seq<u8> {
        self.data@
    }
}

impl<'a> RawDocument<'a> {
    /// Wraps caller-owned bytes, failing on any immediately detectable
    /// mismatch between the declared length and the buffer.
    pub fn new(data: &'a [u8]) -> (r: Result<RawDocument<'a>, DecodeError>)
        ensures
            match r {
                Ok(d) => d@ == data@ && shallow_header_ok(data@),
                Err(_) => !shallow_header_ok(data@),
            },
    {
        let n = data.len();
        if n < 5 {
            return Err(DecodeError::Truncated);
        }
        if n > MAX_DOCUMENT_LEN {
            return Err(DecodeError::LengthMismatch);
        }
        assert(data@.subrange(0, 4) =~= data@.subrange(0int, 4int));
        let dl = vstd::bytes::u32_from_le_bytes(vstd::slice::slice_subrange(data, 0, 4));
        if dl != n as u32 {
            return Err(DecodeError::LengthMismatch);
        }
        if data[n - 1] != 0 {
            return Err(DecodeError::LengthMismatch);
        }
        Ok(RawDocument { data })
    }

    /// The underlying bytes.
    pub fn as_bytes(&self) -> (r: &'a [u8])
        ensures
            r@ == self@,
    {
        self.data
    }

    /// A restartable iterator over the elements, starting at the first.
    pub fn iter(&self) -> (r: RawDocIter<'a>)
        requires
            shallow_header_ok(self@),
        ensures
            r.doc() == self@,
            r.pos() == 4,
            !r.has_errored(),
            r.wf(),
    {
        RawDocIter { data: self.data, pos: 4, errored: false }
    }

    /// Looks a key up by scanning elements front to back: the first match
    /// is returned; a malformed element before any match is an error.
    pub fn get(&self, key: &[u8]) -> (r: Result<Option<RawValueRef<'a>>, DecodeError>)
        requires
            shallow_header_ok(self@),
        ensures
            match r {
                Ok(v) => spec_get(self@, 4, key@) == Ok::<Option<RawRefV>, ()>(
                    match v {
                        Some(rv) => Some(rv@),
                        None => None,
                    },
                ),
                Err(_) => spec_get(self@, 4, key@) is Err,
            },
    {
        let n = self.data.len();
        let mut pos: usize = 4;
        while pos < n - 1
            invariant
                4 <= pos <= n - 1,
                n == self@.len(),
                self@ == self.data@,
                shallow_header_ok(self@),
                spec_get(self@, 4, key@) == spec_get(self@, pos as int, key@),
            decreases n - pos,
        {
            match shallow_elem_at(self.data, pos) {
                Ok((k, v, np)) => {
                    if slices_eq(k, key) {
                        return Ok(Some(v));
                    }
                    pos = np;
                },
                Err(e) => {
                    return Err(e);
                },
            }
        }
        Ok(None)
    }
}

/// Whether two byte slices hold the same bytes.
fn slices_eq(a: &[u8], b: &[u8]) -> (r: bool)
    ensures
        r == (a@ == b@),
{
    if a.len() != b.len() {
        return false;
    }
    let n = a.len();
    let mut i: usize = 0;
    while i < n
        invariant
            0 <= i <= n,
            n == a@.len() == b@.len(),
            forall|j: int| 0 <= j < i ==> a@[j] == b@[j],
        decreases n - i,
    {
        if a[i] != b[i] {
            return false;
        }
        i = i + 1;
    }
    assert(a@ =~= b@);
    true
}

/// A restartable, finite iterator over a raw document's elements. Each
/// step validates exactly one element and never scans beyond it; after
/// any error the iterator is exhausted.
pub struct RawDocIter<'a> {
    data: &'a [u8],
    pos: usize,
    errored: bool,
}

impl<'a> RawDocIter<'a> {
    /// The document bytes the iterator walks.
    pub closed spec fn doc(&self) -> Seq<u8> {
        self.data@
    }

    /// The offset of the next element to validate.
    pub closed spec fn pos(&self) -> int {
        self.pos as int
    }

    /// Whether an element has already failed to validate.
    pub closed spec fn has_errored(&self) -> bool {
        self.errored
    }

    /// The iterator's well-formedness.
    pub closed spec fn wf(&self) -> bool {
        shallow_header_ok(self.data@) && 4 <= self.pos <= self.data@.len() - 1
    }

    /// Validates and yields the next element. Yields nothing at the
    /// document's terminator or after an error; yields the error itself
    /// when the element at hand is malformed.
    pub fn next(&mut self) -> (r: Option<Result<(&'a [u8], RawValueRef<'a>), DecodeError>>)
        requires
            old(self).wf(),
        ensures
            final(self).wf(),
            final(self).doc() == old(self).doc(),
            match r {
                None => *final(self) == *old(self) && (old(self).has_errored() || at_terminator(
                    old(self).doc(),
                    old(self).pos(),
                )),
                Some(rr) => !old(self).has_errored() && !at_terminator(
                    old(self).doc(),
                    old(self).pos(),
                ) && (match rr {
                    Ok((k, v)) => shallow_elem(old(self).doc(), old(self).pos()) == Some(
                        (k@, v@, final(self).pos()),
                    ) && !final(self).has_errored(),
                    Err(_) => (shallow_elem(old(self).doc(), old(self).pos()) is None)
                        && final(self).has_errored(),
                }),
            },
    {
        if self.errored {
            return None;
        }
        let n = self.data.len();
        if self.pos == n - 1 {
            return None;
        }
        match shallow_elem_at(self.data, self.pos) {
            Ok((k, v, np)) => {
                self.pos = np;
                Some(Ok((k, v)))
            },
            Err(e) => {
                self.errored = true;
                Some(Err(e))
            },
        }
    }
}

/// A borrowing view over one encoded array: a document whose keys are the
/// decimal strings of the element indices. Access by index scans from the
/// front, explicitly linear.
pub struct RawArray<'a> {
    doc: RawDocument<'a>,
}

impl<'a> View for RawArray<'a> {
    type V = Seq<u8>;

    closed spec fn view(&self) -> Seq<u8> {
        self.doc@
    }
}

impl<'a> RawArray<'a> {
    /// Wraps caller-owned bytes, checking only the frame.
    pub fn new(data: &'a [u8]) -> (r: Result<RawArray<'a>, DecodeError>)
        ensures
            match r {
                Ok(d) => d@ == data@ && shallow_header_ok(data@),
                Err(_) => !shallow_header_ok(data@),
            },
    {
        match RawDocument::new(data) {
            Ok(doc) => Ok(RawArray { doc }),
            Err(e) => Err(e),
        }
    }

    /// A view of the same bytes as a document, keys included.
    pub fn as_document(&self) -> (r: &RawDocument<'a>)
        ensures
            r@ == self@,
    {
        &self.doc
    }

    /// An iterator over the elements, keys included.
    pub fn iter(&self) -> (r: RawDocIter<'a>)
        requires
            shallow_header_ok(self@),
        ensures
            r.doc() == self@,
            r.pos() == 4,
            !r.has_errored(),
            r.wf(),
    {
        self.doc.iter()
    }

    /// The element at `index`, found by scanning and counting from the
    /// front: linear in the number of elements before it.
    pub fn get(&self, index: usize) -> (r: Result<Option<RawValueRef<'a>>, DecodeError>)
        requires
            shallow_header_ok(self@),
        ensures
            match r {
                Ok(v) => spec_get_nth(self@, 4, index as int) == Ok::<Option<RawRefV>, ()>(
                    match v {
                        Some(rv) => Some(rv@),
                        None => None,
                    },
                ),
                Err(_) => spec_get_nth(self@, 4, index as int) is Err,
            },
    {
        let n = self.doc.as_bytes().len();
        let mut pos: usize = 4;
        let mut remaining = index;
        while pos < n - 1
            invariant
                4 <= pos <= n - 1,
                n == self@.len(),
                self@ == self.doc@,
                shallow_header_ok(self@),
                spec_get_nth(self@, 4, index as int) == spec_get_nth(
                    self@,
                    pos as int,
                    remaining as int,
                ),
                remaining <= index,
            decreases n - pos,
        {
            let data = self.doc.as_bytes();
            assert(data@ == self@);
            match shallow_elem_at(data, pos) {
                Ok((_k, v, np)) => {
                    if remaining == 0 {
                        return Ok(Some(v));
                    }
                    remaining = remaining - 1;
                    pos = np;
                },
                Err(e) => {
                    return Err(e);
                },
            }
        }
        Ok(None)
    }
}

} // verus!
