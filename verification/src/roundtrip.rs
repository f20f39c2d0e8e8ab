//! The round-trip laws of the codec: decoding an encoded value gives the
//! value back, and re-encoding a decoded buffer gives the buffer back,
//! byte for byte. The two public lemmas stand at the end of the file.

use vstd::bytes::{spec_u32_from_le_bytes, spec_u32_to_le_bytes, spec_u64_to_le_bytes};
use vstd::prelude::*;
use vstd::utf8::valid_utf8;
use crate::decoding::{
    dec_cstring,
    dec_doc,
    dec_elements,
    dec_string,
    dec_value,
    entry_values,
    find_nul,
    keys_are_indices,
    lemma_dec_repr_cstring,
    lemma_find_nul,
    lemma_find_nul_enc,
};
use crate::encoding::{
    dec_repr,
    el_tag,
    enc_array,
    enc_array_elems_from,
    enc_cstring,
    enc_doc,
    enc_entries_from,
    enc_string,
    enc_value,
    i32_of_u32,
    i64_of_u64,
    u32_of_i32,
    u64_of_i64,
    MAX_DOCUMENT_LEN,
};
use crate::text::{lemma_lossy_utf8, lossy_utf8};
use crate::value::{BsonV, valid_bson, valid_cstring, valid_elems_from, valid_entries_from};

verus! {

/// Prepending one entry shifts the element encoding by one index.
proof fn lemma_enc_entries_cons(e: (Seq<u8>, BsonV), rest: Seq<(Seq<u8>, BsonV)>, i: int)
    requires
        0 <= i,
    ensures
        enc_entries_from(seq![e] + rest, i + 1) == enc_entries_from(rest, i),
    decreases rest.len() - i,
{
    let whole = seq![e] + rest;
    if i < rest.len() {
        assert(whole[i + 1] == rest[i]);
        lemma_enc_entries_cons(e, rest, i + 1);
    }
}

/// Prepending one entry shifts entry validity by one index.
proof fn lemma_valid_entries_cons(e: (Seq<u8>, BsonV), rest: Seq<(Seq<u8>, BsonV)>, i: int)
    requires
        0 <= i,
    ensures
        valid_entries_from(seq![e] + rest, i + 1) == valid_entries_from(rest, i),
    decreases rest.len() - i,
{
    let whole = seq![e] + rest;
    if i < rest.len() {
        assert(whole[i + 1] == rest[i]);
        lemma_valid_entries_cons(e, rest, i + 1);
    }
}

/// An index-keyed entry list encodes exactly as the array of its values.
pub proof fn lemma_array_elems_eq(entries: Seq<(Seq<u8>, BsonV)>, i: int)
    requires
        0 <= i,
        keys_are_indices(entries),
    ensures
        enc_array_elems_from(entry_values(entries), i) == enc_entries_from(entries, i),
    decreases entries.len() - i,
{
    let values = entry_values(entries);
    if i < entries.len() {
        assert(values[i] == entries[i].1);
        assert(entries[i].0 == dec_repr(i as nat));
        lemma_array_elems_eq(entries, i + 1);
    }
}

/// The values of a valid entry list are themselves valid.
proof fn lemma_entry_values_valid(entries: Seq<(Seq<u8>, BsonV)>, i: int)
    requires
        0 <= i,
        valid_entries_from(entries, i),
    ensures
        valid_elems_from(entry_values(entries), i),
    decreases entries.len() - i,
{
    if i < entries.len() {
        assert(entry_values(entries)[i] == entries[i].1);
        lemma_entry_values_valid(entries, i + 1);
    }
}

/// The entry list that an array's elements stand for on the wire.
pub open spec fn indexed_entries(elems: Seq<BsonV>) -> Seq<(Seq<u8>, BsonV)> {
    Seq::new(elems.len(), |i: int| (dec_repr(i as nat), elems[i]))
}

/// The index-keyed entry list of valid elements is valid, its keys are the
/// indices, and its values are the elements.
proof fn lemma_indexed_entries(elems: Seq<BsonV>, i: int)
    requires
        0 <= i,
        valid_elems_from(elems, i),
    ensures
        valid_entries_from(indexed_entries(elems), i),
        keys_are_indices(indexed_entries(elems)),
        entry_values(indexed_entries(elems)) == elems,
    decreases elems.len() - i,
{
    let entries = indexed_entries(elems);
    assert(entry_values(entries) =~= elems);
    if i < elems.len() {
        lemma_dec_repr_cstring(i as nat);
        lemma_indexed_entries(elems, i + 1);
    }
}

/// Decoding an encoded C-string gives the C-string back, in either mode.
proof fn lemma_dec_cstring_enc(k: Seq<u8>, rest: Seq<u8>, lossy: bool)
    requires
        valid_cstring(k),
    ensures
        dec_cstring(enc_cstring(k) + rest, lossy) == Some((k, k.len() + 1int)),
{
    let s = enc_cstring(k) + rest;
    lemma_find_nul_enc(k, rest);
    assert(s.subrange(0, k.len() as int) =~= k);
}

/// Decoding an encoded string gives the string back, in either mode.
proof fn lemma_dec_string_enc(t: Seq<u8>, rest: Seq<u8>, lossy: bool)
    requires
        valid_utf8(t),
        t.len() + 1 <= MAX_DOCUMENT_LEN,
    ensures
        dec_string(enc_string(t) + rest, lossy) == Some((t, t.len() + 5int)),
{
    vstd::bytes::lemma_auto_spec_u32_to_from_le_bytes();
    let s = enc_string(t) + rest;
    let n = (t.len() + 1) as u32;
    assert(s.subrange(0, 4) =~= spec_u32_to_le_bytes(n));
    assert(spec_u32_from_le_bytes(s.subrange(0, 4)) == n);
    assert(s[4 + n - 1] == 0u8);
    assert(s.subrange(4, 4 + n - 1) =~= t);
}


/// Decoding the encoding of a valid value, with anything after it, gives
/// the value back and consumes exactly its bytes, in either mode.
#[verifier::rlimit(100)]
#[verifier::spinoff_prover]
pub proof fn lemma_dec_enc_value(v: BsonV, rest: Seq<u8>, lossy: bool)
    requires
        valid_bson(v),
        enc_value(v).len() <= MAX_DOCUMENT_LEN,
    ensures
        dec_value(el_tag(v), enc_value(v) + rest, lossy) == Some(
            (v, enc_value(v).len() as int),
        ),
    decreases v, 2int,
{
    vstd::bytes::lemma_auto_spec_u32_to_from_le_bytes();
    vstd::bytes::lemma_auto_spec_u64_to_from_le_bytes();
    let e = enc_value(v);
    let s = e + rest;
    match v {
        BsonV::Double(bits) => {
            assert(s.subrange(0, 8) =~= spec_u64_to_le_bytes(bits));
        },
        BsonV::String(t) => {
            assert(s =~= enc_string(t) + rest);
            lemma_dec_string_enc(t, rest, lossy);
        },
        BsonV::Document(entries) => {
            let body = enc_entries_from(entries, 0);
            let dl = body.len() + 5;
            assert(s.subrange(0, 4) =~= spec_u32_to_le_bytes(dl as u32));
            assert(s.subrange(0, dl as int) =~= enc_doc(entries));
            lemma_dec_enc_doc(entries, lossy);
        },
        BsonV::Array(elems) => {
            let body = enc_array_elems_from(elems, 0);
            let dl = body.len() + 5;
            assert(s.subrange(0, 4) =~= spec_u32_to_le_bytes(dl as u32));
            let region = s.subrange(0, dl as int);
            assert(region =~= enc_array(elems));
            assert(region.subrange(0, 4) =~= spec_u32_to_le_bytes(dl as u32));
            assert(region[dl - 1] == 0u8);
            assert(region.subrange(4, dl - 1) =~= body);
            lemma_dec_enc_array_elems(elems, 0, lossy);
            assert(indexed_entries(elems).skip(0) =~= indexed_entries(elems));
            lemma_indexed_entries(elems, 0);
            assert(dec_doc(region, lossy) == Some(indexed_entries(elems)));
            assert(entry_values(indexed_entries(elems)) == elems);
        },
        BsonV::Binary(subtype, b) => {
            assert(s.subrange(0, 4) =~= spec_u32_to_le_bytes(b.len() as u32));
            assert(s[4] == subtype);
            assert(s.subrange(5, 5 + b.len() as int) =~= b);
        },
        BsonV::Undefined => {},
        BsonV::ObjectId(b) => {
            assert(s.subrange(0, 12) =~= b);
        },
        BsonV::Boolean(x) => {
            assert(s[0] == (if x { 1u8 } else { 0u8 }));
        },
        BsonV::DateTime(ms) => {
            assert(s.subrange(0, 8) =~= spec_u64_to_le_bytes(u64_of_i64(ms)));
            assert(i64_of_u64(u64_of_i64(ms)) == ms);
        },
        BsonV::Null => {},
        BsonV::Regex(p, o) => {
            assert(s =~= enc_cstring(p) + (enc_cstring(o) + rest));
            lemma_dec_cstring_enc(p, enc_cstring(o) + rest, lossy);
            let pc = p.len() + 1int;
            assert(s.subrange(pc, s.len() as int) =~= enc_cstring(o) + rest);
            lemma_dec_cstring_enc(o, rest, lossy);
        },
        BsonV::DbPointer(ns, id) => {
            assert(s =~= enc_string(ns) + (id + rest));
            lemma_dec_string_enc(ns, id + rest, lossy);
            let c = ns.len() + 5int;
            assert(s.subrange(c, c + 12) =~= id);
        },
        BsonV::JavaScriptCode(c) => {
            assert(s =~= enc_string(c) + rest);
            lemma_dec_string_enc(c, rest, lossy);
        },
        BsonV::JavaScriptCodeWithScope(c, scope) => {
            let code = enc_string(c);
            let scope_bytes = enc_doc(scope);
            let total = 4 + code.len() + scope_bytes.len();
            assert(s.subrange(0, 4) =~= spec_u32_to_le_bytes(total as u32));
            assert(s.subrange(4, total as int) =~= code + scope_bytes);
            assert(code + scope_bytes =~= enc_string(c) + scope_bytes);
            lemma_dec_string_enc(c, scope_bytes, lossy);
            let cc = c.len() + 5int;
            assert(s.subrange(4 + cc, total as int) =~= scope_bytes);
            lemma_dec_enc_doc(scope, lossy);
        },
        BsonV::Int32(x) => {
            assert(s.subrange(0, 4) =~= spec_u32_to_le_bytes(u32_of_i32(x)));
            assert(i32_of_u32(u32_of_i32(x)) == x);
        },
        BsonV::Timestamp(t) => {
            assert(s.subrange(0, 4) =~= spec_u32_to_le_bytes(t.increment));
            assert(s.subrange(4, 8) =~= spec_u32_to_le_bytes(t.time));
        },
        BsonV::Int64(x) => {
            assert(s.subrange(0, 8) =~= spec_u64_to_le_bytes(u64_of_i64(x)));
            assert(i64_of_u64(u64_of_i64(x)) == x);
        },
        BsonV::Decimal128(b) => {
            assert(s.subrange(0, 16) =~= b);
        },
        BsonV::MinKey => {},
        BsonV::MaxKey => {},
    }
}

/// Decoding the encoded elements of a valid entry list gives back its
/// entries from index `i` on.
pub proof fn lemma_dec_enc_elements(entries: Seq<(Seq<u8>, BsonV)>, i: int, lossy: bool)
    requires
        0 <= i <= entries.len(),
        valid_entries_from(entries, i),
        enc_entries_from(entries, i).len() <= MAX_DOCUMENT_LEN,
    ensures
        dec_elements(enc_entries_from(entries, i), lossy) == Some(entries.skip(i)),
    decreases entries, 0int, entries.len() - i,
{
    let s = enc_entries_from(entries, i);
    if i == entries.len() {
        assert(entries.skip(i) =~= Seq::<(Seq<u8>, BsonV)>::empty());
    } else {
        let key = entries[i].0;
        let v = entries[i].1;
        let tag = el_tag(v);
        let tail = enc_entries_from(entries, i + 1);
        assert(s == seq![tag] + enc_cstring(key) + enc_value(v) + tail);
        assert(s[0] == tag);
        assert(tag != 0u8);
        assert(s.drop_first() =~= enc_cstring(key) + (enc_value(v) + tail));
        lemma_dec_cstring_enc(key, enc_value(v) + tail, lossy);
        let kc = key.len() + 1int;
        assert(s.subrange(1 + kc, s.len() as int) =~= enc_value(v) + tail);
        lemma_dec_enc_value(v, tail, lossy);
        let c = enc_value(v).len() as int;
        assert(s.subrange(1 + kc + c, s.len() as int) =~= tail);
        lemma_dec_enc_elements(entries, i + 1, lossy);
        assert(seq![(key, v)] + entries.skip(i + 1) =~= entries.skip(i));
    }
}

/// Decoding the encoded elements of a valid array gives back its
/// index-keyed entries from index `i` on.
pub proof fn lemma_dec_enc_array_elems(elems: Seq<BsonV>, i: int, lossy: bool)
    requires
        0 <= i <= elems.len(),
        valid_elems_from(elems, i),
        enc_array_elems_from(elems, i).len() <= MAX_DOCUMENT_LEN,
    ensures
        dec_elements(enc_array_elems_from(elems, i), lossy) == Some(indexed_entries(elems).skip(i)),
    decreases elems, 0int, elems.len() - i,
{
    let s = enc_array_elems_from(elems, i);
    if i == elems.len() {
        assert(indexed_entries(elems).skip(i) =~= Seq::<(Seq<u8>, BsonV)>::empty());
    } else {
        let key = dec_repr(i as nat);
        let v = elems[i];
        let tag = el_tag(v);
        let tail = enc_array_elems_from(elems, i + 1);
        lemma_dec_repr_cstring(i as nat);
        assert(s == seq![tag] + enc_cstring(key) + enc_value(v) + tail);
        assert(s[0] == tag);
        assert(tag != 0u8);
        assert(s.drop_first() =~= enc_cstring(key) + (enc_value(v) + tail));
        lemma_dec_cstring_enc(key, enc_value(v) + tail, lossy);
        let kc = key.len() + 1int;
        assert(s.subrange(1 + kc, s.len() as int) =~= enc_value(v) + tail);
        lemma_dec_enc_value(v, tail, lossy);
        let c = enc_value(v).len() as int;
        assert(s.subrange(1 + kc + c, s.len() as int) =~= tail);
        lemma_dec_enc_array_elems(elems, i + 1, lossy);
        assert(seq![(key, v)] + indexed_entries(elems).skip(i + 1) =~= indexed_entries(
            elems,
        ).skip(i));
    }
}

/// Decoding the encoding of a valid document gives the document back: the
/// first half of the round-trip law, at the document level.
pub proof fn lemma_dec_enc_doc(entries: Seq<(Seq<u8>, BsonV)>, lossy: bool)
    requires
        valid_entries_from(entries, 0),
        enc_doc(entries).len() <= MAX_DOCUMENT_LEN,
    ensures
        dec_doc(enc_doc(entries), lossy) == Some(entries),
    decreases entries, 1int,
{
    vstd::bytes::lemma_auto_spec_u32_to_from_le_bytes();
    let body = enc_entries_from(entries, 0);
    let s = enc_doc(entries);
    assert(s.subrange(0, 4) =~= spec_u32_to_le_bytes((body.len() + 5) as u32));
    assert(s[s.len() - 1] == 0u8);
    assert(s.subrange(4, s.len() - 1) =~= body);
    lemma_dec_enc_elements(entries, 0, lossy);
    assert(entries.skip(0) =~= entries);
}


/// What a parsed C-string guarantees: the count is in range, the text is
/// a well-formed C-string, and in strict mode re-encoding it restores the
/// consumed bytes.
proof fn lemma_dec_cstring_sound(s: Seq<u8>, lossy: bool)
    ensures
        match dec_cstring(s, lossy) {
            Some((t, c)) => 1 <= c <= s.len() && valid_cstring(t) && (!lossy ==> enc_cstring(t)
                == s.subrange(0, c)),
            None => true,
        },
{
    lemma_find_nul(s);
    if let Some(i) = find_nul(s) {
        let raw = s.subrange(0, i);
        lemma_lossy_utf8(raw);
        if dec_cstring(s, lossy) is Some {
            let (t, c) = dec_cstring(s, lossy)->Some_0;
            if valid_utf8(raw) {
                assert(t == raw);
                assert(enc_cstring(t) =~= s.subrange(0, i + 1));
            } else {
                assert(t == lossy_utf8(raw));
            }
        }
    }
}

/// What a parsed string guarantees: the count is in range, the text is
/// well-formed UTF-8, and in strict mode re-encoding it restores the
/// consumed bytes.
pub proof fn lemma_dec_string_sound(s: Seq<u8>, lossy: bool)
    ensures
        match dec_string(s, lossy) {
            Some((t, c)) => 5 <= c <= s.len() && valid_utf8(t) && (!lossy ==> enc_string(t)
                == s.subrange(0, c)),
            None => true,
        },
{
    vstd::bytes::lemma_auto_spec_u32_to_from_le_bytes();
    if dec_string(s, lossy) is Some {
        let n = spec_u32_from_le_bytes(s.subrange(0, 4)) as int;
        let raw = s.subrange(4, 4 + n - 1);
        lemma_lossy_utf8(raw);
        if !lossy {
            let t = raw;
            assert((t.len() + 1) as u32 == spec_u32_from_le_bytes(s.subrange(0, 4)));
            assert(spec_u32_to_le_bytes((t.len() + 1) as u32) == s.subrange(0, 4));
            assert(enc_string(t) =~= s.subrange(0, 4 + n));
        }
    }
}

/// What a parsed value guarantees: it is representable, it bears the tag
/// it was parsed under, the count is in range, and in strict mode
/// re-encoding it restores the consumed bytes.
#[verifier::rlimit(100)]
#[verifier::spinoff_prover]
pub proof fn lemma_dec_value_sound(tag: u8, s: Seq<u8>, lossy: bool)
    ensures
        match dec_value(tag, s, lossy) {
            Some((v, c)) => valid_bson(v) && el_tag(v) == tag && 0 <= c <= s.len() && (!lossy
                ==> enc_value(v) == s.subrange(0, c)),
            None => true,
        },
    decreases s.len(), 2int,
{
    vstd::bytes::lemma_auto_spec_u32_to_from_le_bytes();
    vstd::bytes::lemma_auto_spec_u64_to_from_le_bytes();
    if dec_value(tag, s, lossy) is Some {
        let (v, c) = dec_value(tag, s, lossy)->Some_0;
        if tag == 0x01 {
            assert(enc_value(v) =~= s.subrange(0, 8));
        } else if tag == 0x02 {
            lemma_dec_string_sound(s, lossy);
        } else if tag == 0x03 {
            let dl = spec_u32_from_le_bytes(s.subrange(0, 4)) as int;
            lemma_dec_doc_sound(s.subrange(0, dl), lossy);
        } else if tag == 0x04 {
            let dl = spec_u32_from_le_bytes(s.subrange(0, 4)) as int;
            let region = s.subrange(0, dl);
            lemma_dec_doc_sound(region, lossy);
            let entries = dec_doc(region, lossy)->Some_0;
            lemma_entry_values_valid(entries, 0);
            if !lossy {
                lemma_array_elems_eq(entries, 0);
                assert(region.subrange(0, 4) =~= s.subrange(0, 4));
                assert(enc_array(entry_values(entries)) =~= enc_doc(entries));
            }
        } else if tag == 0x05 {
            let bl = spec_u32_from_le_bytes(s.subrange(0, 4)) as int;
            let b = s.subrange(5, 5 + bl);
            assert(b.len() == bl);
            assert(spec_u32_to_le_bytes(b.len() as u32) == s.subrange(0, 4));
            assert(enc_value(v) =~= s.subrange(0, 5 + bl));
        } else if tag == 0x07 {
            assert(enc_value(v) =~= s.subrange(0, 12));
        } else if tag == 0x08 {
            assert(enc_value(v) =~= s.subrange(0, 1));
        } else if tag == 0x09 {
            let bits = vstd::bytes::spec_u64_from_le_bytes(s.subrange(0, 8));
            assert(u64_of_i64(i64_of_u64(bits)) == bits);
            assert(enc_value(v) =~= s.subrange(0, 8));
        } else if tag == 0x0b {
            lemma_dec_cstring_sound(s, lossy);
            let (p, pc) = dec_cstring(s, lossy)->Some_0;
            let s2 = s.subrange(pc, s.len() as int);
            lemma_dec_cstring_sound(s2, lossy);
            let (o, oc) = dec_cstring(s2, lossy)->Some_0;
            if !lossy {
                assert(enc_value(v) =~= s.subrange(0, pc + oc));
            }
        } else if tag == 0x0c {
            lemma_dec_string_sound(s, lossy);
            let (ns, sc) = dec_string(s, lossy)->Some_0;
            if !lossy {
                assert(enc_value(v) =~= s.subrange(0, sc + 12));
            }
        } else if tag == 0x0d {
            lemma_dec_string_sound(s, lossy);
        } else if tag == 0x0f {
            let total = spec_u32_from_le_bytes(s.subrange(0, 4)) as int;
            let inner = s.subrange(4, total);
            lemma_dec_string_sound(inner, lossy);
            let (code, cc) = dec_string(inner, lossy)->Some_0;
            let scope_region = s.subrange(4 + cc, total);
            lemma_dec_doc_sound(scope_region, lossy);
            if !lossy {
                assert(enc_string(code) == inner.subrange(0, cc));
                assert(enc_string(code).len() == cc);
                assert(enc_doc(dec_doc(scope_region, lossy)->Some_0).len() == total - 4 - cc);
                assert((4 + enc_string(code).len() + enc_doc(
                    dec_doc(scope_region, lossy)->Some_0,
                ).len()) as u32 == total as u32);
                assert(spec_u32_to_le_bytes(total as u32) == s.subrange(0, 4));
                assert(inner.subrange(0, cc) =~= s.subrange(4, 4 + cc));
                assert(enc_value(v) =~= s.subrange(0, total));
            }
        } else if tag == 0x10 {
            let w = spec_u32_from_le_bytes(s.subrange(0, 4));
            assert(u32_of_i32(i32_of_u32(w)) == w);
            assert(enc_value(v) =~= s.subrange(0, 4));
        } else if tag == 0x11 {
            assert(enc_value(v) =~= s.subrange(0, 4) + s.subrange(4, 8));
            assert(s.subrange(0, 4) + s.subrange(4, 8) =~= s.subrange(0, 8));
        } else if tag == 0x12 {
            let bits = vstd::bytes::spec_u64_from_le_bytes(s.subrange(0, 8));
            assert(u64_of_i64(i64_of_u64(bits)) == bits);
            assert(enc_value(v) =~= s.subrange(0, 8));
        } else if tag == 0x13 {
            assert(enc_value(v) =~= s.subrange(0, 16));
        } else {
            assert(enc_value(v) =~= s.subrange(0, 0));
        }
    }
}

/// What a parsed element region guarantees: the entries are valid, and in
/// strict mode re-encoding them restores the whole region.
pub proof fn lemma_dec_elements_sound(s: Seq<u8>, lossy: bool)
    ensures
        match dec_elements(s, lossy) {
            Some(entries) => valid_entries_from(entries, 0) && (!lossy ==> enc_entries_from(
                entries,
                0,
            ) == s),
            None => true,
        },
    decreases s.len(), 0int,
{
    if s.len() > 0 && dec_elements(s, lossy) is Some {
        let tag = s[0];
        lemma_dec_cstring_sound(s.drop_first(), lossy);
        let (key, kc) = dec_cstring(s.drop_first(), lossy)->Some_0;
        let vs = s.subrange(1 + kc, s.len() as int);
        lemma_dec_value_sound(tag, vs, lossy);
        let (v, c) = dec_value(tag, vs, lossy)->Some_0;
        let rs = s.subrange(1 + kc + c, s.len() as int);
        lemma_dec_elements_sound(rs, lossy);
        let rest = dec_elements(rs, lossy)->Some_0;
        let entries = seq![(key, v)] + rest;
        lemma_valid_entries_cons((key, v), rest, 0);
        assert(valid_entries_from(entries, 0));
        if !lossy {
            lemma_enc_entries_cons((key, v), rest, 0);
            assert(enc_cstring(key) == s.drop_first().subrange(0, kc));
            assert(s.drop_first().subrange(0, kc) =~= s.subrange(1, 1 + kc));
            assert(enc_value(v) == vs.subrange(0, c));
            assert(vs.subrange(0, c) =~= s.subrange(1 + kc, 1 + kc + c));
            assert(entries[0] == (key, v));
            assert(enc_entries_from(entries, 0) == seq![el_tag(v)] + enc_cstring(key) + enc_value(
                v,
            ) + enc_entries_from(rest, 0));
            assert(seq![s[0]] =~= s.subrange(0, 1));
            assert(enc_entries_from(entries, 0) =~= s);
        }
    }
}

/// What a parsed document guarantees: the entries are valid, and in
/// strict mode re-encoding them restores the whole buffer: the second
/// half of the round-trip law, at the document level.
pub proof fn lemma_dec_doc_sound(s: Seq<u8>, lossy: bool)
    ensures
        match dec_doc(s, lossy) {
            Some(entries) => valid_entries_from(entries, 0) && (!lossy ==> enc_doc(entries) == s),
            None => true,
        },
    decreases s.len(), 1int,
{
    vstd::bytes::lemma_auto_spec_u32_to_from_le_bytes();
    if dec_doc(s, lossy) is Some {
        let body = s.subrange(4, s.len() - 1);
        lemma_dec_elements_sound(body, lossy);
        let entries = dec_doc(s, lossy)->Some_0;
        if !lossy {
            assert(enc_entries_from(entries, 0) == body);
            assert((body.len() + 5) as u32 == spec_u32_from_le_bytes(s.subrange(0, 4)));
            assert(spec_u32_to_le_bytes((body.len() + 5) as u32) == s.subrange(0, 4));
            assert(enc_doc(entries) =~= s);
        }
    }
}


/// Lossy decoding only repairs what strict decoding rejects: on bytes the
/// strict parser accepts, the lossy parser yields the same value.
pub proof fn lemma_lossy_agrees_on_strict_value(tag: u8, s: Seq<u8>)
    requires
        dec_value(tag, s, false) is Some,
    ensures
        dec_value(tag, s, true) == dec_value(tag, s, false),
    decreases s.len(), 2int,
{
    if tag == 0x02 || tag == 0x0c || tag == 0x0d {
        lemma_lossy_agrees_on_strict_string(s);
    } else if tag == 0x03 || tag == 0x04 {
        let dl = spec_u32_from_le_bytes(s.subrange(0, 4)) as int;
        lemma_lossy_agrees_on_strict_doc(s.subrange(0, dl));
    } else if tag == 0x0b {
        lemma_lossy_agrees_on_strict_cstring(s);
        let (_p, pc) = dec_cstring(s, false)->Some_0;
        lemma_lossy_agrees_on_strict_cstring(s.subrange(pc, s.len() as int));
    } else if tag == 0x0f {
        let total = spec_u32_from_le_bytes(s.subrange(0, 4)) as int;
        lemma_lossy_agrees_on_strict_string(s.subrange(4, total));
        let (_c, cc) = dec_string(s.subrange(4, total), false)->Some_0;
        lemma_lossy_agrees_on_strict_doc(s.subrange(4 + cc, total));
    }
}

/// Strict and lossy C-string parses agree where the strict one succeeds.
proof fn lemma_lossy_agrees_on_strict_cstring(s: Seq<u8>)
    requires
        dec_cstring(s, false) is Some,
    ensures
        dec_cstring(s, true) == dec_cstring(s, false),
{
}

/// Strict and lossy string parses agree where the strict one succeeds.
proof fn lemma_lossy_agrees_on_strict_string(s: Seq<u8>)
    requires
        dec_string(s, false) is Some,
    ensures
        dec_string(s, true) == dec_string(s, false),
{
}

/// Strict and lossy element parses agree where the strict one succeeds.
pub proof fn lemma_lossy_agrees_on_strict_elements(s: Seq<u8>)
    requires
        dec_elements(s, false) is Some,
    ensures
        dec_elements(s, true) == dec_elements(s, false),
    decreases s.len(), 0int,
{
    if s.len() > 0 {
        lemma_lossy_agrees_on_strict_cstring(s.drop_first());
        let (_key, kc) = dec_cstring(s.drop_first(), false)->Some_0;
        lemma_lossy_agrees_on_strict_value(s[0], s.subrange(1 + kc, s.len() as int));
        let (_v, c) = dec_value(s[0], s.subrange(1 + kc, s.len() as int), false)->Some_0;
        lemma_lossy_agrees_on_strict_elements(s.subrange(1 + kc + c, s.len() as int));
    }
}

/// Strict and lossy document parses agree where the strict one succeeds:
/// the lossy mode has no effect on well-formed input.
pub proof fn lemma_lossy_agrees_on_strict_doc(s: Seq<u8>)
    requires
        dec_doc(s, false) is Some,
    ensures
        dec_doc(s, true) == dec_doc(s, false),
    decreases s.len(), 1int,
{
    lemma_lossy_agrees_on_strict_elements(s.subrange(4, s.len() - 1));
}

} // verus!
