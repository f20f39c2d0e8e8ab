//! The serialization bridge's typed mapping: a small, generically typed
//! data model is driven into and out of the value model, and while the
//! tree is visited a path of field names and array indices is maintained,
//! so a failure deep in a nested structure reports exactly where it
//! stands: dot-separated for fields, bracket-indexed for array elements.

use vstd::prelude::*;
use crate::decoding::{dec_doc, decode_document, DecodeError};
use crate::encoding::{dec_repr, enc_doc, encode_document, index_key_bytes, EncodeError};
use crate::text::is_valid_utf8;
use crate::value::{
    Bson,
    BsonV,
    bson_view,
    elems_view_from,
    entries_view_from,
    lemma_valid_elems_prepend,
    lemma_valid_entries_prepend,
    valid_bson,
    valid_cstring,
    valid_elems_from,
    valid_entries_from,
};
use vstd::utf8::valid_utf8;

verus! {

/// A typed value of the generic data model: unsigned integers, text,
/// records of named fields, and lists.
#[derive(PartialEq, Eq, Debug)]
pub enum TypedValue {
    U64(u64),
    Text(Vec<u8>),
    Record(Vec<(Vec<u8>, TypedValue)>),
    List(Vec<TypedValue>),
}

/// The mathematical view of a [`TypedValue`].
pub enum TypedV {
    U64(u64),
    Text(Seq<u8>),
    Record(Seq<(Seq<u8>, TypedV)>),
    List(Seq<TypedV>),
}

/// The view of a typed map's fields, from index `i` on.
pub open spec fn typed_entries_view_from(entries: Seq<(Vec<u8>, TypedValue)>, i: int) -> Seq<
    (Seq<u8>, TypedV),
>
    decreases entries, 0int, entries.len() - i,
{
    if i < 0 || i >= entries.len() {
        seq![]
    } else {
        seq![(entries[i].0@, typed_view(entries[i].1))] + typed_entries_view_from(entries, i + 1)
    }
}

/// The view of a typed list's elements, from index `i` on.
pub open spec fn typed_elems_view_from(elems: Seq<TypedValue>, i: int) -> Seq<TypedV>
    decreases elems, 0int, elems.len() - i,
{
    if i < 0 || i >= elems.len() {
        seq![]
    } else {
        seq![typed_view(elems[i])] + typed_elems_view_from(elems, i + 1)
    }
}

/// The deep view of a typed value.
pub open spec fn typed_view(v: TypedValue) -> TypedV
    decreases v, 1int,
{
    match v {
        TypedValue::U64(x) => TypedV::U64(x),
        TypedValue::Text(s) => TypedV::Text(s@),
        TypedValue::Record(entries) => TypedV::Record(typed_entries_view_from(entries@, 0)),
        TypedValue::List(elems) => TypedV::List(typed_elems_view_from(elems@, 0)),
    }
}

impl View for TypedValue {
    type V = TypedV;

    open spec fn view(&self) -> TypedV {
        typed_view(*self)
    }
}

/// The expected type of a value: what the typed decoder asks the raw
/// tree to produce at each position.
#[derive(PartialEq, Eq, Debug)]
pub enum Shape {
    U64,
    Text,
    Record(Vec<(Vec<u8>, Shape)>),
    List(Box<Shape>),
}

/// Joins a path segment with the path beneath it: a dot before a field,
/// nothing before a bracketed index.
pub open spec fn path_join(seg: Seq<u8>, rest: Seq<u8>) -> Seq<u8> {
    if rest.len() == 0 {
        seg
    } else if rest[0] == 91u8 {
        seg + rest
    } else {
        seg + seq![46u8] + rest
    }
}

/// The bracketed rendering of an array index.
pub open spec fn index_segment(i: nat) -> Seq<u8> {
    seq![91u8] + dec_repr(i) + seq![93u8]
}

/// The first entry of a document bearing the given key, if any.
pub open spec fn find_entry(entries: Seq<(Seq<u8>, BsonV)>, key: Seq<u8>, i: int) -> Option<int>
    decreases entries.len() - i,
{
    if i < 0 || i >= entries.len() {
        None
    } else if entries[i].0 == key {
        Some(i)
    } else {
        find_entry(entries, key, i + 1)
    }
}

/// What driving a raw value into an expected shape yields: the typed
/// value, or the dotted, bracket-indexed path of the first position whose
/// raw value does not fit the shape. An unsigned integer is read from a
/// signed 32-bit or 64-bit wire integer when it is non-negative; text is
/// read from a string; a map reads each of its fields from a document in
/// field order, ignoring entries it does not name; a list reads every
/// element of an array.
pub open spec fn spec_de(v: BsonV, s: Shape) -> Result<TypedV, Seq<u8>>
    decreases s, v, 2int,
{
    match s {
        Shape::U64 => match v {
            BsonV::Int32(x) => if x >= 0 {
                Ok(TypedV::U64(x as u64))
            } else {
                Err(seq![])
            },
            BsonV::Int64(x) => if x >= 0 {
                Ok(TypedV::U64(x as u64))
            } else {
                Err(seq![])
            },
            _ => Err(seq![]),
        },
        Shape::Text => match v {
            BsonV::String(t) => Ok(TypedV::Text(t)),
            _ => Err(seq![]),
        },
        Shape::Record(fields) => match v {
            BsonV::Document(entries) => spec_de_fields(entries, fields@, 0),
            _ => Err(seq![]),
        },
        Shape::List(inner) => match v {
            BsonV::Array(elems) => spec_de_elems(elems, *inner, 0),
            _ => Err(seq![]),
        },
    }
}

/// Reads the named fields of a document, from field index `i` on.
pub open spec fn spec_de_fields(
    entries: Seq<(Seq<u8>, BsonV)>,
    fields: Seq<(Vec<u8>, Shape)>,
    i: int,
) -> Result<TypedV, Seq<u8>>
    decreases fields, entries, 1int, fields.len() - i,
{
    if i < 0 || i > fields.len() {
        Err(seq![])
    } else if i == fields.len() {
        Ok(TypedV::Record(seq![]))
    } else {
        let name = fields[i].0@;
        match find_entry(entries, name, 0) {
            Some(k) => if 0 <= k < entries.len() {
                match spec_de(entries[k].1, fields[i].1) {
                Ok(t) => match spec_de_fields(entries, fields, i + 1) {
                    Ok(rest) => match rest {
                        TypedV::Record(rs) => Ok(TypedV::Record(seq![(name, t)] + rs)),
                        _ => Err(seq![]),
                    },
                    Err(p) => Err(p),
                },
                    Err(p) => Err(path_join(name, p)),
                }
            } else {
                Err(name)
            },
            None => Err(name),
        }
    }
}

/// Reads the elements of an array, from index `i` on.
pub open spec fn spec_de_elems(elems: Seq<BsonV>, inner: Shape, i: int) -> Result<TypedV, Seq<u8>>
    decreases inner, elems, 1int, elems.len() - i,
{
    if i < 0 || i > elems.len() {
        Err(seq![])
    } else if i == elems.len() {
        Ok(TypedV::List(seq![]))
    } else {
        match spec_de(elems[i], inner) {
            Ok(t) => match spec_de_elems(elems, inner, i + 1) {
                Ok(rest) => match rest {
                    TypedV::List(rs) => Ok(TypedV::List(seq![t] + rs)),
                    _ => Err(seq![]),
                },
                Err(p) => Err(p),
            },
            Err(p) => Err(path_join(index_segment(i as nat), p)),
        }
    }
}

/// What serializing a typed value into the value model yields: the
/// value, or the path of the first position that cannot be represented.
/// An unsigned integer becomes a signed 64-bit wire integer and is
/// refused when it exceeds what that can hold; text becomes a string and
/// is refused when it is not well-formed UTF-8; a record becomes a
/// document in field order, each field name a well-formed C-string; a
/// list becomes an array. A serialized value is always representable
/// ([`lemma_ser_valid`]).
pub open spec fn spec_ser(v: TypedValue) -> Result<BsonV, Seq<u8>>
    decreases v, 2int,
{
    match v {
        TypedValue::U64(x) => if x <= i64::MAX {
            Ok(BsonV::Int64(x as i64))
        } else {
            Err(seq![])
        },
        TypedValue::Text(t) => if valid_utf8(t@) {
            Ok(BsonV::String(t@))
        } else {
            Err(seq![])
        },
        TypedValue::Record(entries) => spec_ser_fields(entries@, 0),
        TypedValue::List(elems) => spec_ser_elems(elems@, 0),
    }
}

/// Serializes the fields of a typed map, from index `i` on.
pub open spec fn spec_ser_fields(entries: Seq<(Vec<u8>, TypedValue)>, i: int) -> Result<
    BsonV,
    Seq<u8>,
>
    decreases entries, 1int, entries.len() - i,
{
    if i < 0 || i > entries.len() {
        Err(seq![])
    } else if i == entries.len() {
        Ok(BsonV::Document(seq![]))
    } else {
        let name = entries[i].0@;
        if valid_cstring(name) {
            match spec_ser(entries[i].1) {
                Ok(b) => match spec_ser_fields(entries, i + 1) {
                    Ok(rest) => match rest {
                        BsonV::Document(rs) => Ok(BsonV::Document(seq![(name, b)] + rs)),
                        _ => Err(seq![]),
                    },
                    Err(p) => Err(p),
                },
                Err(p) => Err(path_join(name, p)),
            }
        } else {
            Err(name)
        }
    }
}

/// Serializes the elements of a typed list, from index `i` on.
pub open spec fn spec_ser_elems(elems: Seq<TypedValue>, i: int) -> Result<BsonV, Seq<u8>>
    decreases elems, 1int, elems.len() - i,
{
    if i < 0 || i > elems.len() {
        Err(seq![])
    } else if i == elems.len() {
        Ok(BsonV::Array(seq![]))
    } else {
        match spec_ser(elems[i]) {
            Ok(b) => match spec_ser_elems(elems, i + 1) {
                Ok(rest) => match rest {
                    BsonV::Array(rs) => Ok(BsonV::Array(seq![b] + rs)),
                    _ => Err(seq![]),
                },
                Err(p) => Err(p),
            },
            Err(p) => Err(path_join(index_segment(i as nat), p)),
        }
    }
}


/// Why a typed mapping failed, and where: the dotted, bracket-indexed
/// path to the first position that did not fit.
#[derive(PartialEq, Eq, Debug)]
pub struct PathError {
    pub path: Vec<u8>,
    pub kind: TypedErrorKind,
}

/// The kind of a typed-mapping failure.
#[derive(Clone, Copy, PartialEq, Eq, Structural, Debug)]
pub enum TypedErrorKind {
    TypeMismatch,
    IntegerOutOfRange,
    MissingField,
    InvalidText,
    InvalidKey,
}

/// The length and the members of a viewed typed entry list.
proof fn lemma_typed_entries_view_from(e: Seq<(Vec<u8>, TypedValue)>, i: int)
    requires
        0 <= i <= e.len(),
    ensures
        typed_entries_view_from(e, i).len() == e.len() - i,
        forall|k: int|
            i <= k < e.len() ==> #[trigger] typed_entries_view_from(e, i)[k - i] == (
                e[k].0@,
                typed_view(e[k].1),
            ),
    decreases e.len() - i,
{
    if i < e.len() {
        lemma_typed_entries_view_from(e, i + 1);
        assert forall|k: int|
            i <= k < e.len() implies #[trigger] typed_entries_view_from(e, i)[k - i] == (
            e[k].0@,
            typed_view(e[k].1),
        ) by {
            if k > i {
                assert(typed_entries_view_from(e, i)[k - i] == typed_entries_view_from(e, i + 1)[k
                    - (i + 1)]);
            }
        }
    }
}

/// The length and the members of a viewed typed element list.
proof fn lemma_typed_elems_view_from(e: Seq<TypedValue>, i: int)
    requires
        0 <= i <= e.len(),
    ensures
        typed_elems_view_from(e, i).len() == e.len() - i,
        forall|k: int|
            i <= k < e.len() ==> #[trigger] typed_elems_view_from(e, i)[k - i] == typed_view(e[k]),
    decreases e.len() - i,
{
    if i < e.len() {
        lemma_typed_elems_view_from(e, i + 1);
        assert forall|k: int|
            i <= k < e.len() implies #[trigger] typed_elems_view_from(e, i)[k - i] == typed_view(
            e[k],
        ) by {
            if k > i {
                assert(typed_elems_view_from(e, i)[k - i] == typed_elems_view_from(e, i + 1)[k - (i
                    + 1)]);
            }
        }
    }
}

/// Joins a rendered path segment with the rendered path beneath it.
fn path_join_exec(seg: Vec<u8>, rest: &Vec<u8>) -> (r: Vec<u8>)
    ensures
        r@ == path_join(seg@, rest@),
{
    let mut out = seg;
    if rest.len() == 0 {
        assert(out@ =~= path_join(out@, rest@));
        return out;
    }
    if rest[0] != 91 {
        out.push(46);
    }
    out.extend_from_slice(rest.as_slice());
    assert(out@ =~= path_join(seg@, rest@));
    out
}

/// The bracketed rendering of an array index.
fn index_segment_exec(i: usize) -> (r: Vec<u8>)
    ensures
        r@ == index_segment(i as nat),
{
    let mut out: Vec<u8> = Vec::new();
    out.push(91);
    let digits = index_key_bytes(i);
    out.extend_from_slice(digits.as_slice());
    out.push(93);
    assert(out@ =~= index_segment(i as nat));
    out
}

/// An owned copy of a byte vector.
fn copy_bytes(v: &Vec<u8>) -> (r: Vec<u8>)
    ensures
        r@ == v@,
{
    vstd::slice::slice_to_vec(v.as_slice())
}

/// Whether two byte vectors hold the same bytes.
fn bytes_eq(a: &Vec<u8>, b: &Vec<u8>) -> (r: bool)
    ensures
        r == (a@ == b@),
{
    if a.len() != b.len() {
        return false;
    }
    let n = a.len();
    let mut i: usize = 0;
    while i < n
        invariant
            0 <= i <= n,
            n == a@.len() == b@.len(),
            forall|j: int| 0 <= j < i ==> a@[j] == b@[j],
        decreases n - i,
    {
        if a[i] != b[i] {
            return false;
        }
        i = i + 1;
    }
    assert(a@ =~= b@);
    true
}

/// The first entry of a document bearing the given key, if any.
fn find_entry_exec(entries: &Vec<(Vec<u8>, Bson)>, key: &Vec<u8>) -> (r: Option<usize>)
    ensures
        match r {
            Some(k) => k < entries@.len() && find_entry(entries_view_from(entries@, 0), key@, 0)
                == Some(k as int),
            None => find_entry(entries_view_from(entries@, 0), key@, 0) is None,
        },
{
    let ghost ev = entries_view_from(entries@, 0);
    proof {
        crate::encoding::lemma_entries_view_from(entries@, 0);
        assert forall|k: int|
            0 <= k < entries@.len() implies #[trigger] ev[k] == (
            entries@[k].0@,
            bson_view(entries@[k].1),
        ) by {
            assert(entries_view_from(entries@, 0)[k - 0] == (
                entries@[k].0@,
                bson_view(entries@[k].1),
            ));
        }
    }
    let n = entries.len();
    let mut i: usize = 0;
    while i < n
        invariant
            0 <= i <= n,
            n == entries@.len(),
            ev == entries_view_from(entries@, 0),
            ev.len() == n,
            forall|k: int|
                0 <= k < n ==> #[trigger] ev[k] == (entries@[k].0@, bson_view(entries@[k].1)),
            find_entry(ev, key@, 0) == find_entry(ev, key@, i as int),
        decreases n - i,
    {
        if bytes_eq(&entries[i].0, key) {
            return Some(i);
        }
        i = i + 1;
    }
    None
}

/// Drives one raw value into an expected shape, as [`spec_de`] does: the
/// typed value on success, or the path of the first mismatch.
pub fn read_typed(v: &Bson, s: &Shape) -> (r: Result<TypedValue, PathError>)
    ensures
        match r {
            Ok(t) => spec_de(v@, *s) == Ok::<TypedV, Seq<u8>>(t@),
            Err(e) => spec_de(v@, *s) == Err::<TypedV, Seq<u8>>(e.path@),
        },
    decreases s, v, 2int,
{
    match s {
        Shape::U64 => match v {
            Bson::Int32(x) => {
                if *x >= 0 {
                    Ok(TypedValue::U64(*x as u64))
                } else {
                    Err(PathError { path: Vec::new(), kind: TypedErrorKind::IntegerOutOfRange })
                }
            },
            Bson::Int64(x) => {
                if *x >= 0 {
                    Ok(TypedValue::U64(*x as u64))
                } else {
                    Err(PathError { path: Vec::new(), kind: TypedErrorKind::IntegerOutOfRange })
                }
            },
            _ => Err(PathError { path: Vec::new(), kind: TypedErrorKind::TypeMismatch }),
        },
        Shape::Text => match v {
            Bson::String(t) => Ok(TypedValue::Text(copy_bytes(t))),
            _ => Err(PathError { path: Vec::new(), kind: TypedErrorKind::TypeMismatch }),
        },
        Shape::Record(fields) => match v {
            Bson::Document(entries) => read_typed_fields(entries, fields),
            _ => Err(PathError { path: Vec::new(), kind: TypedErrorKind::TypeMismatch }),
        },
        Shape::List(inner) => match v {
            Bson::Array(elems) => read_typed_elems(elems, inner),
            _ => Err(PathError { path: Vec::new(), kind: TypedErrorKind::TypeMismatch }),
        },
    }
}

/// Reads the named fields of a document, in field order.
fn read_typed_fields(entries: &Vec<(Vec<u8>, Bson)>, fields: &Vec<(Vec<u8>, Shape)>) -> (r: Result<
    TypedValue,
    PathError,
>)
    ensures
        match r {
            Ok(t) => spec_de_fields(entries_view_from(entries@, 0), fields@, 0) == Ok::<
                TypedV,
                Seq<u8>,
            >(t@),
            Err(e) => spec_de_fields(entries_view_from(entries@, 0), fields@, 0) == Err::<
                TypedV,
                Seq<u8>,
            >(e.path@),
        },
    decreases fields, entries, 1int,
{
    let ghost ev = entries_view_from(entries@, 0);
    proof {
        crate::encoding::lemma_entries_view_from(entries@, 0);
        assert forall|k: int|
            0 <= k < entries@.len() implies #[trigger] ev[k] == (
            entries@[k].0@,
            bson_view(entries@[k].1),
        ) by {
            assert(entries_view_from(entries@, 0)[k - 0] == (
                entries@[k].0@,
                bson_view(entries@[k].1),
            ));
        }
    }
    let n = fields.len();
    let mut acc: Vec<(Vec<u8>, TypedValue)> = Vec::new();
    let mut j: usize = 0;
    proof {
        assert(typed_entries_view_from(acc@, 0) =~= Seq::<(Seq<u8>, TypedV)>::empty());
    }
    while j < n
        invariant
            0 <= j <= n,
            n == fields@.len(),
            ev == entries_view_from(entries@, 0),
            forall|k: int|
                0 <= k < entries@.len() ==> #[trigger] ev[k] == (
                    entries@[k].0@,
                    bson_view(entries@[k].1),
                ),
            ev.len() == entries@.len(),
            match spec_de_fields(ev, fields@, j as int) {
                Ok(rest) => rest is Record && spec_de_fields(ev, fields@, 0) == Ok::<
                    TypedV,
                    Seq<u8>,
                >(TypedV::Record(typed_entries_view_from(acc@, 0) + rest->Record_0)),
                Err(p) => spec_de_fields(ev, fields@, 0) == Err::<TypedV, Seq<u8>>(p),
            },
        decreases n - j,
    {
        let ghost acc0 = acc@;
        let name = &fields[j].0;
        match find_entry_exec(entries, name) {
            Some(k) => {
                match read_typed(&entries[k].1, &fields[j].1) {
                    Ok(t) => {
                        acc.push((copy_bytes(name), t));
                        proof {
                            lemma_typed_entries_view_from(acc0, 0);
                            lemma_typed_entries_view_from(acc@, 0);
                            assert(acc@ == acc0.push(acc@[acc@.len() - 1]));
                            assert forall|kk: int|
                                0 <= kk < acc@.len() implies #[trigger] typed_entries_view_from(
                                acc@,
                                0,
                            )[kk] == (typed_entries_view_from(acc0, 0) + seq![
                                (name@, typed_view(acc@[acc@.len() - 1].1)),
                            ])[kk] by {
                                assert(typed_entries_view_from(acc@, 0)[kk - 0] == (
                                    acc@[kk].0@,
                                    typed_view(acc@[kk].1),
                                ));
                                if kk < acc0.len() {
                                    assert(acc@[kk] == acc0[kk]);
                                    assert(typed_entries_view_from(acc0, 0)[kk - 0] == (
                                        acc0[kk].0@,
                                        typed_view(acc0[kk].1),
                                    ));
                                }
                            }
                            assert(typed_entries_view_from(acc@, 0) =~= typed_entries_view_from(
                                acc0,
                                0,
                            ) + seq![(name@, typed_view(acc@[acc@.len() - 1].1))]);
                            match spec_de_fields(ev, fields@, j + 1) {
                                Ok(rest) => {
                                    assert(typed_entries_view_from(acc@, 0) + rest->Record_0
                                        =~= typed_entries_view_from(acc0, 0) + (seq![
                                        (name@, typed_view(acc@[acc@.len() - 1].1)),
                                    ] + rest->Record_0));
                                },
                                Err(_) => {},
                            }
                        }
                    },
                    Err(e) => {
                        return Err(
                            PathError {
                                path: path_join_exec(copy_bytes(name), &e.path),
                                kind: e.kind,
                            },
                        );
                    },
                }
            },
            None => {
                return Err(
                    PathError { path: copy_bytes(name), kind: TypedErrorKind::MissingField },
                );
            },
        }
        j = j + 1;
    }
    proof {
        assert(typed_entries_view_from(acc@, 0) + Seq::<(Seq<u8>, TypedV)>::empty()
            =~= typed_entries_view_from(acc@, 0));
    }
    Ok(TypedValue::Record(acc))
}

/// Reads the elements of an array, indexing the path at each step.
fn read_typed_elems(elems: &Vec<Bson>, inner: &Box<Shape>) -> (r: Result<TypedValue, PathError>)
    ensures
        match r {
            Ok(t) => spec_de_elems(elems_view_from(elems@, 0), **inner, 0) == Ok::<
                TypedV,
                Seq<u8>,
            >(t@),
            Err(e) => spec_de_elems(elems_view_from(elems@, 0), **inner, 0) == Err::<
                TypedV,
                Seq<u8>,
            >(e.path@),
        },
    decreases inner, elems, 1int,
{
    let ghost ev = elems_view_from(elems@, 0);
    proof {
        crate::encoding::lemma_elems_view_from(elems@, 0);
        assert forall|k: int| 0 <= k < elems@.len() implies #[trigger] ev[k] == bson_view(
            elems@[k],
        ) by {
            assert(elems_view_from(elems@, 0)[k - 0] == bson_view(elems@[k]));
        }
    }
    let n = elems.len();
    let mut acc: Vec<TypedValue> = Vec::new();
    let mut j: usize = 0;
    proof {
        assert(typed_elems_view_from(acc@, 0) =~= Seq::<TypedV>::empty());
    }
    while j < n
        invariant
            0 <= j <= n,
            n == elems@.len(),
            ev == elems_view_from(elems@, 0),
            forall|k: int| 0 <= k < n ==> #[trigger] ev[k] == bson_view(elems@[k]),
            ev.len() == n,
            match spec_de_elems(ev, **inner, j as int) {
                Ok(rest) => rest is List && spec_de_elems(ev, **inner, 0) == Ok::<
                    TypedV,
                    Seq<u8>,
                >(TypedV::List(typed_elems_view_from(acc@, 0) + rest->List_0)),
                Err(p) => spec_de_elems(ev, **inner, 0) == Err::<TypedV, Seq<u8>>(p),
            },
        decreases n - j,
    {
        let ghost acc0 = acc@;
        match read_typed(&elems[j], inner) {
            Ok(t) => {
                acc.push(t);
                proof {
                    lemma_typed_elems_view_from(acc0, 0);
                    lemma_typed_elems_view_from(acc@, 0);
                    assert(acc@ == acc0.push(acc@[acc@.len() - 1]));
                    assert forall|kk: int|
                        0 <= kk < acc@.len() implies #[trigger] typed_elems_view_from(acc@, 0)[kk]
                        == (typed_elems_view_from(acc0, 0) + seq![
                        typed_view(acc@[acc@.len() - 1]),
                    ])[kk] by {
                        assert(typed_elems_view_from(acc@, 0)[kk - 0] == typed_view(acc@[kk]));
                        if kk < acc0.len() {
                            assert(acc@[kk] == acc0[kk]);
                            assert(typed_elems_view_from(acc0, 0)[kk - 0] == typed_view(acc0[kk]));
                        }
                    }
                    assert(typed_elems_view_from(acc@, 0) =~= typed_elems_view_from(acc0, 0)
                        + seq![typed_view(acc@[acc@.len() - 1])]);
                    match spec_de_elems(ev, **inner, j + 1) {
                        Ok(rest) => {
                            assert(typed_elems_view_from(acc@, 0) + rest->List_0
                                =~= typed_elems_view_from(acc0, 0) + (seq![
                                typed_view(acc@[acc@.len() - 1]),
                            ] + rest->List_0));
                        },
                        Err(_) => {},
                    }
                }
            },
            Err(e) => {
                return Err(
                    PathError { path: path_join_exec(index_segment_exec(j), &e.path), kind: e.kind },
                );
            },
        }
        j = j + 1;
    }
    proof {
        assert(typed_elems_view_from(acc@, 0) + Seq::<TypedV>::empty() =~= typed_elems_view_from(
            acc@,
            0,
        ));
    }
    Ok(TypedValue::List(acc))
}


/// Serializes a typed value into the value model, as [`spec_ser`] does:
/// the value on success, or the path of the first position that cannot be
/// represented.
pub fn write_typed(v: &TypedValue) -> (r: Result<Bson, PathError>)
    ensures
        match r {
            Ok(b) => spec_ser(*v) == Ok::<BsonV, Seq<u8>>(b@),
            Err(e) => spec_ser(*v) == Err::<BsonV, Seq<u8>>(e.path@),
        },
    decreases v, 2int,
{
    match v {
        TypedValue::U64(x) => {
            if *x <= 0x7fff_ffff_ffff_ffff {
                Ok(Bson::Int64(*x as i64))
            } else {
                Err(PathError { path: Vec::new(), kind: TypedErrorKind::IntegerOutOfRange })
            }
        },
        TypedValue::Text(t) => {
            if is_valid_utf8(t.as_slice()) {
                Ok(Bson::String(copy_bytes(t)))
            } else {
                Err(PathError { path: Vec::new(), kind: TypedErrorKind::InvalidText })
            }
        },
        TypedValue::Record(entries) => match write_typed_fields(entries) {
            Ok(es) => Ok(Bson::Document(es)),
            Err(e) => Err(e),
        },
        TypedValue::List(elems) => write_typed_elems(elems),
    }
}

/// Serializes the fields of a typed record, in order, into document
/// entries.
fn write_typed_fields(entries: &Vec<(Vec<u8>, TypedValue)>) -> (r: Result<
    Vec<(Vec<u8>, Bson)>,
    PathError,
>)
    ensures
        match r {
            Ok(es) => spec_ser_fields(entries@, 0) == Ok::<BsonV, Seq<u8>>(
                BsonV::Document(entries_view_from(es@, 0)),
            ),
            Err(e) => spec_ser_fields(entries@, 0) == Err::<BsonV, Seq<u8>>(e.path@),
        },
    decreases entries, 1int,
{
    let n = entries.len();
    let mut acc: Vec<(Vec<u8>, Bson)> = Vec::new();
    let mut j: usize = 0;
    proof {
        assert(entries_view_from(acc@, 0) =~= Seq::<(Seq<u8>, BsonV)>::empty());
    }
    while j < n
        invariant
            0 <= j <= n,
            n == entries@.len(),
            match spec_ser_fields(entries@, j as int) {
                Ok(rest) => rest is Document && spec_ser_fields(entries@, 0) == Ok::<
                    BsonV,
                    Seq<u8>,
                >(BsonV::Document(entries_view_from(acc@, 0) + rest->Document_0)),
                Err(p) => spec_ser_fields(entries@, 0) == Err::<BsonV, Seq<u8>>(p),
            },
        decreases n - j,
    {
        let ghost acc0 = acc@;
        let name = &entries[j].0;
        match crate::encoding::check_cstring(name.as_slice()) {
            Ok(()) => {},
            Err(_) => {
                return Err(
                    PathError { path: copy_bytes(name), kind: TypedErrorKind::InvalidKey },
                );
            },
        }
        match write_typed(&entries[j].1) {
            Ok(b) => {
                acc.push((copy_bytes(name), b));
                proof {
                    crate::encoding::lemma_entries_view_from(acc0, 0);
                    crate::encoding::lemma_entries_view_from(acc@, 0);
                    assert(acc@ == acc0.push(acc@[acc@.len() - 1]));
                    let ghost rhs = entries_view_from(acc0, 0) + seq![
                        (name@, bson_view(acc@[acc@.len() - 1].1)),
                    ];
                    assert forall|kk: int|
                        0 <= kk < acc@.len() implies #[trigger] entries_view_from(acc@, 0)[kk]
                        == rhs[kk] by {
                        assert(entries_view_from(acc@, 0)[kk - 0] == (
                            acc@[kk].0@,
                            bson_view(acc@[kk].1),
                        ));
                        if kk < acc0.len() {
                            assert(acc@[kk] == acc0[kk]);
                            assert(entries_view_from(acc0, 0)[kk - 0] == (
                                acc0[kk].0@,
                                bson_view(acc0[kk].1),
                            ));
                        }
                    }
                    assert(entries_view_from(acc@, 0) =~= entries_view_from(acc0, 0) + seq![
                        (name@, bson_view(acc@[acc@.len() - 1].1)),
                    ]);
                    match spec_ser_fields(entries@, j + 1) {
                        Ok(rest) => {
                            assert(entries_view_from(acc@, 0) + rest->Document_0
                                =~= entries_view_from(acc0, 0) + (seq![
                                (name@, bson_view(acc@[acc@.len() - 1].1)),
                            ] + rest->Document_0));
                        },
                        Err(_) => {},
                    }
                }
            },
            Err(e) => {
                return Err(
                    PathError { path: path_join_exec(copy_bytes(name), &e.path), kind: e.kind },
                );
            },
        }
        j = j + 1;
    }
    proof {
        assert(entries_view_from(acc@, 0) + Seq::<(Seq<u8>, BsonV)>::empty() =~= entries_view_from(
            acc@,
            0,
        ));
    }
    Ok(acc)
}

/// Serializes the elements of a typed list, indexing the path.
fn write_typed_elems(elems: &Vec<TypedValue>) -> (r: Result<Bson, PathError>)
    ensures
        match r {
            Ok(b) => spec_ser_elems(elems@, 0) == Ok::<BsonV, Seq<u8>>(b@),
            Err(e) => spec_ser_elems(elems@, 0) == Err::<BsonV, Seq<u8>>(e.path@),
        },
    decreases elems, 1int,
{
    let n = elems.len();
    let mut acc: Vec<Bson> = Vec::new();
    let mut j: usize = 0;
    proof {
        assert(elems_view_from(acc@, 0) =~= Seq::<BsonV>::empty());
    }
    while j < n
        invariant
            0 <= j <= n,
            n == elems@.len(),
            match spec_ser_elems(elems@, j as int) {
                Ok(rest) => rest is Array && spec_ser_elems(elems@, 0) == Ok::<BsonV, Seq<u8>>(
                    BsonV::Array(elems_view_from(acc@, 0) + rest->Array_0),
                ),
                Err(p) => spec_ser_elems(elems@, 0) == Err::<BsonV, Seq<u8>>(p),
            },
        decreases n - j,
    {
        let ghost acc0 = acc@;
        match write_typed(&elems[j]) {
            Ok(b) => {
                acc.push(b);
                proof {
                    crate::encoding::lemma_elems_view_from(acc0, 0);
                    crate::encoding::lemma_elems_view_from(acc@, 0);
                    assert(acc@ == acc0.push(acc@[acc@.len() - 1]));
                    let ghost rhs = elems_view_from(acc0, 0) + seq![
                        bson_view(acc@[acc@.len() - 1]),
                    ];
                    assert forall|kk: int|
                        0 <= kk < acc@.len() implies #[trigger] elems_view_from(acc@, 0)[kk]
                        == rhs[kk] by {
                        assert(elems_view_from(acc@, 0)[kk - 0] == bson_view(acc@[kk]));
                        if kk < acc0.len() {
                            assert(acc@[kk] == acc0[kk]);
                            assert(elems_view_from(acc0, 0)[kk - 0] == bson_view(acc0[kk]));
                        }
                    }
                    assert(elems_view_from(acc@, 0) =~= elems_view_from(acc0, 0) + seq![
                        bson_view(acc@[acc@.len() - 1]),
                    ]);
                    match spec_ser_elems(elems@, j + 1) {
                        Ok(rest) => {
                            assert(elems_view_from(acc@, 0) + rest->Array_0 =~= elems_view_from(
                                acc0,
                                0,
                            ) + (seq![bson_view(acc@[acc@.len() - 1])] + rest->Array_0));
                        },
                        Err(_) => {},
                    }
                }
            },
            Err(e) => {
                return Err(
                    PathError { path: path_join_exec(index_segment_exec(j), &e.path), kind: e.kind },
                );
            },
        }
        j = j + 1;
    }
    proof {
        assert(elems_view_from(acc@, 0) + Seq::<BsonV>::empty() =~= elems_view_from(acc@, 0));
    }
    Ok(Bson::Array(acc))
}

/// Whatever the typed serializer yields is representable: its text and
/// field names were checked on the way, so the encoder accepts it.
pub proof fn lemma_ser_valid(v: TypedValue)
    ensures
        spec_ser(v) matches Ok(b) ==> valid_bson(b),
    decreases v, 2int,
{
    match v {
        TypedValue::Record(entries) => {
            lemma_ser_fields_valid(entries@, 0);
        },
        TypedValue::List(elems) => {
            lemma_ser_elems_valid(elems@, 0);
        },
        _ => {},
    }
}

/// Serialized record fields form a document of valid entries.
proof fn lemma_ser_fields_valid(entries: Seq<(Vec<u8>, TypedValue)>, i: int)
    ensures
        spec_ser_fields(entries, i) matches Ok(b) ==> b is Document && valid_entries_from(
            b->Document_0,
            0,
        ),
    decreases entries, 1int, entries.len() - i,
{
    if 0 <= i < entries.len() {
        lemma_ser_valid(entries[i].1);
        lemma_ser_fields_valid(entries, i + 1);
        if spec_ser_fields(entries, i) is Ok {
            let name = entries[i].0@;
            let b = spec_ser(entries[i].1)->Ok_0;
            let rest = spec_ser_fields(entries, i + 1)->Ok_0;
            lemma_valid_entries_prepend((name, b), rest->Document_0);
        }
    }
}

/// Serialized list elements form an array of valid elements.
proof fn lemma_ser_elems_valid(elems: Seq<TypedValue>, i: int)
    ensures
        spec_ser_elems(elems, i) matches Ok(b) ==> b is Array && valid_elems_from(b->Array_0, 0),
    decreases elems, 1int, elems.len() - i,
{
    if 0 <= i < elems.len() {
        lemma_ser_valid(elems[i]);
        lemma_ser_elems_valid(elems, i + 1);
        if spec_ser_elems(elems, i) is Ok {
            let b = spec_ser(elems[i])->Ok_0;
            let rest = spec_ser_elems(elems, i + 1)->Ok_0;
            lemma_valid_elems_prepend(b, rest->Array_0);
        }
    }
}

/// Why a typed read from raw bytes failed: the bytes are not a
/// well-formed document, or a well-formed value did not fit the shape, in
/// which case the error carries the path.
#[derive(PartialEq, Eq, Debug)]
pub enum TypedFromBytesError {
    Malformed(DecodeError),
    Mismatch(PathError),
}

/// Decodes raw bytes as one document and drives it into the expected
/// shape, reporting the path of the first mismatch.
pub fn read_typed_from_slice(bytes: &[u8], s: &Shape) -> (r: Result<
    TypedValue,
    TypedFromBytesError,
>)
    ensures
        match r {
            Ok(t) => dec_doc(bytes@, false) matches Some(ev) && spec_de(BsonV::Document(ev), *s)
                == Ok::<TypedV, Seq<u8>>(t@),
            Err(TypedFromBytesError::Malformed(_)) => dec_doc(bytes@, false) is None,
            Err(TypedFromBytesError::Mismatch(e)) => dec_doc(bytes@, false) matches Some(ev)
                && spec_de(BsonV::Document(ev), *s) == Err::<TypedV, Seq<u8>>(e.path@),
        },
{
    match decode_document(bytes) {
        Ok(es) => {
            let doc = Bson::Document(es);
            match read_typed(&doc, s) {
                Ok(t) => Ok(t),
                Err(e) => Err(TypedFromBytesError::Mismatch(e)),
            }
        },
        Err(e) => Err(TypedFromBytesError::Malformed(e)),
    }
}

/// Why a typed write to raw bytes failed: a position that cannot be
/// represented, with its path; or a representable value whose encoding
/// the format refuses, or that is no document at the top.
#[derive(PartialEq, Eq, Debug)]
pub enum TypedToBytesError {
    Mismatch(PathError),
    Unencodable(EncodeError),
}

/// Serializes a typed record into one encoded document, reporting the
/// path of the first position that cannot be represented. Succeeds
/// exactly when serialization yields a document whose encoding stays
/// under the size ceiling.
pub fn write_typed_to_vec(v: &TypedValue) -> (r: Result<Vec<u8>, TypedToBytesError>)
    ensures
        match r {
            Ok(bytes) => spec_ser(*v) matches Ok(bv) && bv matches BsonV::Document(ev)
                && bytes@ == enc_doc(ev),
            Err(TypedToBytesError::Mismatch(e)) => spec_ser(*v) == Err::<BsonV, Seq<u8>>(e.path@),
            Err(TypedToBytesError::Unencodable(_)) => spec_ser(*v) is Ok,
        },
        spec_ser(*v) matches Ok(bv) && bv matches BsonV::Document(ev) && enc_doc(ev).len()
            <= crate::encoding::MAX_DOCUMENT_LEN ==> r is Ok,
{
    match v {
        TypedValue::Record(entries) => match write_typed_fields(entries) {
            Ok(es) => {
                proof {
                    lemma_ser_fields_valid(entries@, 0);
                }
                match encode_document(&es) {
                    Ok(bytes) => Ok(bytes),
                    Err(e) => Err(TypedToBytesError::Unencodable(e)),
                }
            },
            Err(e) => Err(TypedToBytesError::Mismatch(e)),
        },
        _ => {
            // Only a record serializes to a document at the top.
            proof {
                if v is List {
                    lemma_ser_elems_valid(v->List_0@, 0);
                }
            }
            match write_typed(v) {
                Ok(_) => Err(TypedToBytesError::Unencodable(EncodeError::InvalidLength)),
                Err(e) => Err(TypedToBytesError::Mismatch(e)),
            }
        },
    }
}

} // verus!
