//! Date-time adapters: a UTC date-time is carried as signed 64-bit
//! milliseconds since the epoch, and converts to and from its RFC 3339
//! text through the `time` crate. The human-readable transform rewrites
//! every date-time in a value tree into that text.

use vstd::prelude::*;
use vstd::utf8::valid_utf8;
use crate::text::is_valid_utf8;
use crate::value::{Bson, BsonV, bson_view, entries_view_from, elems_view_from, lemma_valid_elems_prepend, lemma_valid_entries_prepend};

verus! {

/// What the `time` crate formats a nanosecond timestamp as: its RFC 3339
/// text, or nothing when the instant lies outside the civil range the
/// crate can express. The result depends on the timestamp alone.
pub uninterp spec fn rfc3339_of(nanos: i128) -> Option<Seq<u8>>;

/// What the `time` crate parses RFC 3339 text into: a nanosecond
/// timestamp, or nothing when the bytes are not such text. The result
/// depends on the bytes alone.
pub uninterp spec fn rfc3339_parse_of(s: Seq<u8>) -> Option<i128>;

/// Relies on time's OffsetDateTime::from_unix_timestamp_nanos and
/// OffsetDateTime::format with the well-known RFC 3339 description: both
/// compute from their arguments alone, so their composition is named
/// [`rfc3339_of`].
#[verifier::external_body]
fn format_rfc3339_nanos(ns: i128) -> (r: Option<Vec<u8>>)
    ensures
        match r {
            Some(b) => rfc3339_of(ns) == Some(b@),
            None => rfc3339_of(ns) is None,
        },
{
    match time::OffsetDateTime::from_unix_timestamp_nanos(ns) {
        Ok(dt) => match dt.format(&time::format_description::well_known::Rfc3339) {
            Ok(s) => Some(s.into_bytes()),
            Err(_) => None,
        },
        Err(_) => None,
    }
}

/// Relies on time's OffsetDateTime::parse with the well-known RFC 3339
/// description and on its unix_timestamp_nanos: both compute from their
/// arguments alone, so their composition is named [`rfc3339_parse_of`].
#[verifier::external_body]
fn parse_rfc3339_nanos(b: &[u8]) -> (r: Option<i128>)
    ensures
        match r {
            Some(ns) => rfc3339_parse_of(b@) == Some(ns),
            None => rfc3339_parse_of(b@) is None,
        },
{
    match core::str::from_utf8(b) {
        Ok(s) => match time::OffsetDateTime::parse(
            s,
            &time::format_description::well_known::Rfc3339,
        ) {
            Ok(dt) => Some(dt.unix_timestamp_nanos()),
            Err(_) => None,
        },
        Err(_) => None,
    }
}

/// Milliseconds since the epoch, as the nanosecond timestamp they stand
/// for.
pub open spec fn ms_to_ns(ms: i64) -> i128 {
    (ms * 1_000_000) as i128
}

/// A nanosecond timestamp, as whole milliseconds, truncated toward zero.
pub open spec fn ns_to_ms_trunc(ns: i128) -> int {
    if ns >= 0 {
        ns / 1_000_000
    } else {
        -((-ns) / 1_000_000)
    }
}

/// The RFC 3339 text of a date-time, when the crate's named formatting
/// yields well-formed text for it.
pub open spec fn rfc3339_text_of_millis(ms: i64) -> Option<Seq<u8>> {
    match rfc3339_of(ms_to_ns(ms)) {
        Some(b) => if valid_utf8(b) {
            Some(b)
        } else {
            None
        },
        None => None,
    }
}

/// Formats a date-time in milliseconds since the epoch as RFC 3339 text.
/// Fails when the instant lies outside the range the formatter can
/// express; a date-time the format cannot express still round-trips
/// losslessly through the raw bytes, only this textual form is refused.
pub fn datetime_millis_to_rfc3339(ms: i64) -> (r: Option<Vec<u8>>)
    ensures
        match r {
            Some(b) => rfc3339_text_of_millis(ms) == Some(b@) && valid_utf8(b@),
            None => rfc3339_text_of_millis(ms) is None,
        },
{
    let ns: i128 = (ms as i128) * 1_000_000;
    match format_rfc3339_nanos(ns) {
        Some(b) => {
            if is_valid_utf8(b.as_slice()) {
                Some(b)
            } else {
                None
            }
        },
        None => None,
    }
}

/// Parses RFC 3339 text into a date-time in milliseconds since the epoch,
/// truncating sub-millisecond digits toward zero. Fails when the bytes
/// are not such text or the milliseconds overflow their 64 bits.
pub fn datetime_millis_from_rfc3339(b: &[u8]) -> (r: Option<i64>)
    ensures
        match r {
            Some(ms) => rfc3339_parse_of(b@) matches Some(ns) && ms == ns_to_ms_trunc(ns),
            None => rfc3339_parse_of(b@) is None || !(i64::MIN <= ns_to_ms_trunc(
                rfc3339_parse_of(b@)->Some_0,
            ) <= i64::MAX),
        },
{
    match parse_rfc3339_nanos(b) {
        Some(ns) => {
            let ms: i128 = if ns >= 0 {
                (ns as u128 / 1_000_000) as i128
            } else {
                let mag = ((-(ns + 1)) as u128 + 1) / 1_000_000;
                proof {
                    lemma_neg_div(ns, mag as int);
                }
                -(mag as i128)
            };
            if ms < -0x8000_0000_0000_0000i128 || ms > 0x7fff_ffff_ffff_ffffi128 {
                None
            } else {
                Some(ms as i64)
            }
        },
        None => None,
    }
}

/// The truncated division of a negative timestamp agrees with negating
/// the division of its magnitude.
proof fn lemma_neg_div(ns: i128, mag: int)
    requires
        ns < 0,
        mag == ((-(ns + 1)) + 1) / 1_000_000,
    ensures
        -mag == ns_to_ms_trunc(ns),
{
}

/// The human-readable form of one value: every date-time that the
/// formatter can express becomes its RFC 3339 text, recursively through
/// documents, arrays and scopes; everything else keeps its native form.
/// Text stays text, so a second pass changes nothing.
pub open spec fn hr_value(v: BsonV) -> BsonV
    decreases v, 1int,
{
    match v {
        BsonV::DateTime(ms) => match rfc3339_text_of_millis(ms) {
            Some(b) => BsonV::String(b),
            None => BsonV::DateTime(ms),
        },
        BsonV::Document(entries) => BsonV::Document(hr_entries_from(entries, 0)),
        BsonV::Array(elems) => BsonV::Array(hr_elems_from(elems, 0)),
        BsonV::JavaScriptCodeWithScope(c, scope) => BsonV::JavaScriptCodeWithScope(
            c,
            hr_entries_from(scope, 0),
        ),
        _ => v,
    }
}

/// The human-readable form of a document's entries from index `i` on.
pub open spec fn hr_entries_from(entries: Seq<(Seq<u8>, BsonV)>, i: int) -> Seq<(Seq<u8>, BsonV)>
    decreases entries, 0int, entries.len() - i,
{
    if i < 0 || i >= entries.len() {
        seq![]
    } else {
        seq![(entries[i].0, hr_value(entries[i].1))] + hr_entries_from(entries, i + 1)
    }
}

/// The human-readable form of an array's elements from index `i` on.
pub open spec fn hr_elems_from(elems: Seq<BsonV>, i: int) -> Seq<BsonV>
    decreases elems, 0int, elems.len() - i,
{
    if i < 0 || i >= elems.len() {
        seq![]
    } else {
        seq![hr_value(elems[i])] + hr_elems_from(elems, i + 1)
    }
}

/// The length and the members of a transformed entry list.
pub proof fn lemma_hr_entries_index(entries: Seq<(Seq<u8>, BsonV)>, i: int)
    requires
        0 <= i <= entries.len(),
    ensures
        hr_entries_from(entries, i).len() == entries.len() - i,
        forall|k: int|
            i <= k < entries.len() ==> #[trigger] hr_entries_from(entries, i)[k - i] == (
                entries[k].0,
                hr_value(entries[k].1),
            ),
    decreases entries.len() - i,
{
    if i < entries.len() {
        lemma_hr_entries_index(entries, i + 1);
        assert forall|k: int|
            i <= k < entries.len() implies #[trigger] hr_entries_from(entries, i)[k - i] == (
            entries[k].0,
            hr_value(entries[k].1),
        ) by {
            if k > i {
                assert(hr_entries_from(entries, i)[k - i] == hr_entries_from(entries, i + 1)[k - (i
                    + 1)]);
            }
        }
    }
}

/// The length and the members of a transformed element list.
pub proof fn lemma_hr_elems_index(elems: Seq<BsonV>, i: int)
    requires
        0 <= i <= elems.len(),
    ensures
        hr_elems_from(elems, i).len() == elems.len() - i,
        forall|k: int|
            i <= k < elems.len() ==> #[trigger] hr_elems_from(elems, i)[k - i] == hr_value(
                elems[k],
            ),
    decreases elems.len() - i,
{
    if i < elems.len() {
        lemma_hr_elems_index(elems, i + 1);
        assert forall|k: int|
            i <= k < elems.len() implies #[trigger] hr_elems_from(elems, i)[k - i] == hr_value(
            elems[k],
        ) by {
            if k > i {
                assert(hr_elems_from(elems, i)[k - i] == hr_elems_from(elems, i + 1)[k - (i + 1)]);
            }
        }
    }
}

/// The human-readable transform is idempotent: what one pass yields, a
/// second pass leaves byte-identical, since date-times have become text
/// and text keeps its form. Re-serializing a value already produced
/// through the transform therefore yields the same output again.
pub proof fn lemma_hr_idempotent(v: BsonV)
    ensures
        hr_value(hr_value(v)) == hr_value(v),
    decreases v, 1int,
{
    match v {
        BsonV::Document(entries) => {
            let inner = hr_entries_from(entries, 0);
            lemma_hr_entries_index(entries, 0);
            lemma_hr_entries_index(inner, 0);
            assert forall|k: int|
                0 <= k < inner.len() implies #[trigger] hr_entries_from(inner, 0)[k]
                == inner[k] by {
                assert(hr_entries_from(inner, 0)[k - 0] == (inner[k].0, hr_value(inner[k].1)));
                assert(inner[k - 0] == (entries[k].0, hr_value(entries[k].1)));
                lemma_hr_idempotent(entries[k].1);
            }
            assert(hr_entries_from(inner, 0) =~= inner);
        },
        BsonV::Array(elems) => {
            let inner = hr_elems_from(elems, 0);
            lemma_hr_elems_index(elems, 0);
            lemma_hr_elems_index(inner, 0);
            assert forall|k: int|
                0 <= k < inner.len() implies #[trigger] hr_elems_from(inner, 0)[k]
                == inner[k] by {
                assert(hr_elems_from(inner, 0)[k - 0] == hr_value(inner[k]));
                assert(inner[k - 0] == hr_value(elems[k]));
                lemma_hr_idempotent(elems[k]);
            }
            assert(hr_elems_from(inner, 0) =~= inner);
        },
        BsonV::JavaScriptCodeWithScope(c, scope) => {
            let inner = hr_entries_from(scope, 0);
            lemma_hr_entries_index(scope, 0);
            lemma_hr_entries_index(inner, 0);
            assert forall|k: int|
                0 <= k < inner.len() implies #[trigger] hr_entries_from(inner, 0)[k]
                == inner[k] by {
                assert(hr_entries_from(inner, 0)[k - 0] == (inner[k].0, hr_value(inner[k].1)));
                assert(inner[k - 0] == (scope[k].0, hr_value(scope[k].1)));
                lemma_hr_idempotent(scope[k].1);
            }
            assert(hr_entries_from(inner, 0) =~= inner);
        },
        _ => {},
    }
}


/// An owned copy of a byte vector.
fn copy_bytes(v: &Vec<u8>) -> (r: Vec<u8>)
    ensures
        r@ == v@,
{
    vstd::slice::slice_to_vec(v.as_slice())
}

/// Rewrites a value into its human-readable form: every date-time the
/// formatter can express becomes its RFC 3339 text, recursively through
/// documents, arrays and scopes. By [`lemma_hr_idempotent`], applying the
/// transform to its own output changes nothing, so re-serializing a value
/// already produced through it yields byte-identical output.
pub fn to_human_readable(v: &Bson) -> (r: Bson)
    ensures
        r@ == hr_value(v@),
    decreases v, 3int,
{
    match v {
        Bson::Double(bits) => Bson::Double(*bits),
        Bson::String(s) => Bson::String(copy_bytes(s)),
        Bson::Document(entries) => Bson::Document(hr_entries_exec(entries)),
        Bson::Array(elems) => Bson::Array(hr_elems_exec(elems)),
        Bson::Binary(subtype, b) => Bson::Binary(*subtype, copy_bytes(b)),
        Bson::Undefined => Bson::Undefined,
        Bson::ObjectId(b) => Bson::ObjectId(copy_bytes(b)),
        Bson::Boolean(x) => Bson::Boolean(*x),
        Bson::DateTime(ms) => {
            match datetime_millis_to_rfc3339(*ms) {
                Some(b) => Bson::String(b),
                None => Bson::DateTime(*ms),
            }
        },
        Bson::Null => Bson::Null,
        Bson::Regex(p, o) => Bson::Regex(copy_bytes(p), copy_bytes(o)),
        Bson::DbPointer(ns, id) => Bson::DbPointer(copy_bytes(ns), copy_bytes(id)),
        Bson::JavaScriptCode(c) => Bson::JavaScriptCode(copy_bytes(c)),
        Bson::JavaScriptCodeWithScope(c, scope) => Bson::JavaScriptCodeWithScope(
            copy_bytes(c),
            hr_entries_exec(scope),
        ),
        Bson::Int32(x) => Bson::Int32(*x),
        Bson::Timestamp(t) => Bson::Timestamp(*t),
        Bson::Int64(x) => Bson::Int64(*x),
        Bson::Decimal128(b) => Bson::Decimal128(copy_bytes(b)),
        Bson::MinKey => Bson::MinKey,
        Bson::MaxKey => Bson::MaxKey,
    }
}

/// Rewrites every entry of a document into its human-readable form.
pub fn hr_entries_exec(entries: &Vec<(Vec<u8>, Bson)>) -> (r: Vec<(Vec<u8>, Bson)>)
    ensures
        entries_view_from(r@, 0) == hr_entries_from(entries_view_from(entries@, 0), 0),
    decreases entries, 2int,
{
    let ghost ev = entries_view_from(entries@, 0);
    proof {
        crate::encoding::lemma_entries_view_from(entries@, 0);
        lemma_hr_entries_index(ev, 0);
        assert forall|k: int|
            0 <= k < entries@.len() implies #[trigger] ev[k] == (
            entries@[k].0@,
            bson_view(entries@[k].1),
        ) by {
            assert(entries_view_from(entries@, 0)[k - 0] == (
                entries@[k].0@,
                bson_view(entries@[k].1),
            ));
        }
    }
    let n = entries.len();
    let mut out: Vec<(Vec<u8>, Bson)> = Vec::new();
    let mut j: usize = 0;
    while j < n
        invariant
            0 <= j <= n,
            n == entries@.len(),
            ev == entries_view_from(entries@, 0),
            ev.len() == n,
            forall|k: int|
                0 <= k < n ==> #[trigger] ev[k] == (entries@[k].0@, bson_view(entries@[k].1)),
            out@.len() == j,
            forall|k: int|
                0 <= k < j ==> #[trigger] out@[k].0@ == ev[k].0 && bson_view(out@[k].1)
                    == hr_value(ev[k].1),
        decreases n - j,
    {
        let key = copy_bytes(&entries[j].0);
        let val = to_human_readable(&entries[j].1);
        out.push((key, val));
        j = j + 1;
    }
    proof {
        crate::encoding::lemma_entries_view_from(out@, 0);
        assert forall|k: int|
            0 <= k < n implies #[trigger] entries_view_from(out@, 0)[k] == hr_entries_from(
            ev,
            0,
        )[k] by {
            assert(entries_view_from(out@, 0)[k - 0] == (out@[k].0@, bson_view(out@[k].1)));
            assert(hr_entries_from(ev, 0)[k - 0] == (ev[k].0, hr_value(ev[k].1)));
        }
        assert(entries_view_from(out@, 0) =~= hr_entries_from(ev, 0));
    }
    out
}

/// Rewrites every element of an array into its human-readable form.
pub fn hr_elems_exec(elems: &Vec<Bson>) -> (r: Vec<Bson>)
    ensures
        elems_view_from(r@, 0) == hr_elems_from(elems_view_from(elems@, 0), 0),
    decreases elems, 2int,
{
    let ghost ev = elems_view_from(elems@, 0);
    proof {
        crate::encoding::lemma_elems_view_from(elems@, 0);
        lemma_hr_elems_index(ev, 0);
        assert forall|k: int| 0 <= k < elems@.len() implies #[trigger] ev[k] == bson_view(
            elems@[k],
        ) by {
            assert(elems_view_from(elems@, 0)[k - 0] == bson_view(elems@[k]));
        }
    }
    let n = elems.len();
    let mut out: Vec<Bson> = Vec::new();
    let mut j: usize = 0;
    while j < n
        invariant
            0 <= j <= n,
            n == elems@.len(),
            ev == elems_view_from(elems@, 0),
            ev.len() == n,
            forall|k: int| 0 <= k < n ==> #[trigger] ev[k] == bson_view(elems@[k]),
            out@.len() == j,
            forall|k: int| 0 <= k < j ==> #[trigger] bson_view(out@[k]) == hr_value(ev[k]),
        decreases n - j,
    {
        let val = to_human_readable(&elems[j]);
        out.push(val);
        j = j + 1;
    }
    proof {
        crate::encoding::lemma_elems_view_from(out@, 0);
        assert forall|k: int|
            0 <= k < n implies #[trigger] elems_view_from(out@, 0)[k] == hr_elems_from(
            ev,
            0,
        )[k] by {
            assert(elems_view_from(out@, 0)[k - 0] == bson_view(out@[k]));
            assert(hr_elems_from(ev, 0)[k - 0] == hr_value(ev[k]));
        }
        assert(elems_view_from(out@, 0) =~= hr_elems_from(ev, 0));
    }
    out
}


/// The human-readable transform preserves representability: what the
/// encoder accepts before the transform, it accepts after, so the
/// transformed value can always be serialized again.
pub proof fn lemma_hr_preserves_validity(v: BsonV)
    requires
        crate::value::valid_bson(v),
    ensures
        crate::value::valid_bson(hr_value(v)),
    decreases v, 1int,
{
    match v {
        BsonV::Document(entries) => {
            lemma_hr_entries_index(entries, 0);
            lemma_hr_entries_valid(entries, 0);
        },
        BsonV::Array(elems) => {
            lemma_hr_elems_index(elems, 0);
            lemma_hr_elems_valid(elems, 0);
        },
        BsonV::JavaScriptCodeWithScope(c, scope) => {
            lemma_hr_entries_index(scope, 0);
            lemma_hr_entries_valid(scope, 0);
        },
        _ => {},
    }
}

/// Validity of transformed entries, from index `i` on.
proof fn lemma_hr_entries_valid(entries: Seq<(Seq<u8>, BsonV)>, i: int)
    requires
        0 <= i <= entries.len(),
        crate::value::valid_entries_from(entries, i),
    ensures
        crate::value::valid_entries_from(hr_entries_from(entries, i), 0),
    decreases entries, 0int, entries.len() - i,
{
    if i < entries.len() {
        lemma_hr_preserves_validity(entries[i].1);
        lemma_hr_entries_valid(entries, i + 1);
        lemma_valid_entries_prepend(
            (entries[i].0, hr_value(entries[i].1)),
            hr_entries_from(entries, i + 1),
        );
    }
}

/// Validity of transformed elements, from index `i` on.
proof fn lemma_hr_elems_valid(elems: Seq<BsonV>, i: int)
    requires
        0 <= i <= elems.len(),
        crate::value::valid_elems_from(elems, i),
    ensures
        crate::value::valid_elems_from(hr_elems_from(elems, i), 0),
    decreases elems, 0int, elems.len() - i,
{
    if i < elems.len() {
        lemma_hr_preserves_validity(elems[i]);
        lemma_hr_elems_valid(elems, i + 1);
        lemma_valid_elems_prepend(hr_value(elems[i]), hr_elems_from(elems, i + 1));
    }
}

} // verus!
