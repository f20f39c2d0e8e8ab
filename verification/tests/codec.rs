//! Byte-level encoding and decoding: round trips, malformed input, the
//! builders, and the lazily validated raw view.

use bson::builder::{RawArrayBuf, RawDocumentBuf};
use bson::decoding::{decode_document, decode_document_utf8_lossy};
use bson::encoding::{encode_document, encode_value_into, EncodeError};
use bson::raw::{RawArray, RawDocument, RawValueRef};
use bson::value::{Bson, Timestamp};

fn key(s: &str) -> Vec<u8> {
    s.as_bytes().to_vec()
}

/// One entry of every wire type the format defines.
fn every_type_doc() -> Vec<(Vec<u8>, Bson)> {
    vec![
        (key("double"), Bson::Double(4614256656552045848)),
        (key("string"), Bson::String(key("hello"))),
        (
            key("doc"),
            Bson::Document(vec![(key("inner"), Bson::Int32(-7))]),
        ),
        (
            key("array"),
            Bson::Array(vec![Bson::Int32(1), Bson::String(key("two")), Bson::Null]),
        ),
        (key("binary"), Bson::Binary(0x80, vec![1, 2, 3, 0, 255])),
        (key("undefined"), Bson::Undefined),
        (
            key("oid"),
            Bson::ObjectId(vec![80, 127, 31, 119, 188, 248, 108, 215, 153, 67, 144, 17]),
        ),
        (key("bool"), Bson::Boolean(true)),
        (key("datetime"), Bson::DateTime(-62135596800000)),
        (key("null"), Bson::Null),
        (key("regex"), Bson::Regex(key("ab+c"), key("imx"))),
        (
            key("dbptr"),
            Bson::DbPointer(key("db.coll"), vec![0, 1, 2, 3, 4, 5, 6, 7, 8, 9, 10, 11]),
        ),
        (key("code"), Bson::JavaScriptCode(key("function() {}"))),
        (
            key("scoped"),
            Bson::JavaScriptCodeWithScope(key("x"), vec![(key("x"), Bson::Int64(9))]),
        ),
        (key("int32"), Bson::Int32(i32::MIN)),
        (
            key("ts"),
            Bson::Timestamp(Timestamp { time: 12345, increment: 10 }),
        ),
        (key("int64"), Bson::Int64(i64::MIN)),
        (
            key("dec128"),
            Bson::Decimal128(vec![0, 1, 2, 3, 4, 5, 6, 7, 8, 9, 10, 11, 12, 13, 14, 15]),
        ),
        (key("min"), Bson::MinKey),
        (key("max"), Bson::MaxKey),
    ]
}

#[test]
fn fuzz_regression_00() {
    let buf: &[u8] = &[227, 0, 35, 4, 2, 0, 255, 255, 255, 127, 255, 255, 255, 47];
    let _ = decode_document(buf);
}

#[test]
fn malformed_length_is_rejected_not_read() {
    let buf: &[u8] = &[227, 0, 35, 4, 2, 0, 255, 255, 255, 127, 255, 255, 255, 47];
    assert!(decode_document(buf).is_err());
}

#[test]
fn decode_of_encode_returns_the_value() {
    let doc = every_type_doc();
    let bytes = encode_document(&doc).unwrap();
    let back = decode_document(&bytes).unwrap();
    assert_eq!(back, doc);
}

#[test]
fn encode_of_decode_returns_the_bytes() {
    let doc = every_type_doc();
    let bytes = encode_document(&doc).unwrap();
    let back = decode_document(&bytes).unwrap();
    let bytes_again = encode_document(&back).unwrap();
    assert_eq!(bytes_again, bytes);
}

#[test]
fn known_bytes_of_a_small_document() {
    let doc = vec![(key("a"), Bson::Int32(1))];
    let bytes = encode_document(&doc).unwrap();
    assert_eq!(bytes, vec![12, 0, 0, 0, 0x10, b'a', 0, 1, 0, 0, 0, 0]);
}

#[test]
fn empty_document_is_five_bytes() {
    let doc: Vec<(Vec<u8>, Bson)> = Vec::new();
    let bytes = encode_document(&doc).unwrap();
    assert_eq!(bytes, vec![5, 0, 0, 0, 0]);
}

#[test]
fn key_with_null_byte_is_rejected_at_encode_time() {
    let doc = vec![(vec![b'a', 0, b'b'], Bson::Int32(1))];
    assert_eq!(encode_document(&doc), Err(EncodeError::ContainsNull));
}

#[test]
fn string_with_invalid_utf8_is_rejected_at_encode_time() {
    let doc = vec![(key("s"), Bson::String(vec![0xff, 0xfe]))];
    assert_eq!(encode_document(&doc), Err(EncodeError::InvalidUtf8));
}

#[test]
fn identifier_of_wrong_width_is_rejected() {
    let doc = vec![(key("oid"), Bson::ObjectId(vec![1, 2, 3]))];
    assert_eq!(encode_document(&doc), Err(EncodeError::InvalidLength));
}

#[test]
fn truncated_buffer_is_rejected() {
    let doc = vec![(key("a"), Bson::Int32(1))];
    let bytes = encode_document(&doc).unwrap();
    assert!(decode_document(&bytes[..bytes.len() - 1]).is_err());
}

#[test]
fn unknown_tag_is_rejected() {
    // A document declaring one element with tag 0xee.
    let bytes = vec![8, 0, 0, 0, 0xee, b'a', 0, 0];
    assert!(decode_document(&bytes).is_err());
}

#[test]
fn boolean_bytes_other_than_zero_or_one_are_rejected() {
    let bytes = vec![9, 0, 0, 0, 0x08, b'b', 0, 2, 0];
    assert!(decode_document(&bytes).is_err());
}

#[test]
fn array_keys_must_be_the_element_indices() {
    // {"a": <array whose single element is keyed "7" instead of "0">}
    let inner = vec![12, 0, 0, 0, 0x10, b'7', 0, 1, 0, 0, 0, 0];
    let mut bytes = vec![0u8; 0];
    let total = 4 + 1 + 2 + inner.len() + 1;
    bytes.extend_from_slice(&(total as u32).to_le_bytes());
    bytes.push(0x04);
    bytes.extend_from_slice(b"a\0");
    bytes.extend_from_slice(&inner);
    bytes.push(0);
    assert!(decode_document(&bytes).is_err());
}

#[test]
fn embedded_nul_in_string_value_roundtrips() {
    let doc = vec![(key("s"), Bson::String(vec![b'a', 0, b'b']))];
    let bytes = encode_document(&doc).unwrap();
    assert_eq!(decode_document(&bytes).unwrap(), doc);
}

#[test]
fn lossy_decode_repairs_invalid_utf8() {
    // {"s": "a<0xff>"} encoded by hand: string payload of length 3.
    let bytes = vec![
        15, 0, 0, 0, 0x02, b's', 0, 3, 0, 0, 0, b'a', 0xff, 0, 0,
    ];
    assert!(decode_document(&bytes).is_err());
    let doc = decode_document_utf8_lossy(&bytes).unwrap();
    let expected = vec![(key("s"), Bson::String(vec![b'a', 0xef, 0xbf, 0xbd]))];
    assert_eq!(doc, expected);
}

#[test]
fn lossy_decode_agrees_with_strict_on_well_formed_input() {
    let doc = every_type_doc();
    let bytes = encode_document(&doc).unwrap();
    assert_eq!(decode_document_utf8_lossy(&bytes).unwrap(), doc);
}

#[test]
fn builder_appends_keep_the_buffer_well_formed() {
    let mut buf = RawDocumentBuf::new();
    assert_eq!(buf.as_bytes().clone(), vec![5, 0, 0, 0, 0]);
    buf.append(&key("a"), &Bson::Int32(1)).unwrap();
    let doc = vec![(key("a"), Bson::Int32(1))];
    assert_eq!(buf.as_bytes().clone(), encode_document(&doc).unwrap());
    buf.append(&key("b"), &Bson::String(key("x"))).unwrap();
    let doc2 = vec![
        (key("a"), Bson::Int32(1)),
        (key("b"), Bson::String(key("x"))),
    ];
    assert_eq!(buf.as_bytes().clone(), encode_document(&doc2).unwrap());
    assert_eq!(decode_document(buf.as_bytes()).unwrap(), doc2);
}

#[test]
fn failed_append_leaves_the_builder_unchanged() {
    let mut buf = RawDocumentBuf::new();
    buf.append(&key("a"), &Bson::Int32(1)).unwrap();
    let before = buf.as_bytes().clone();
    assert!(buf.append(&vec![0u8], &Bson::Int32(2)).is_err());
    assert_eq!(buf.as_bytes().clone(), before);
}

#[test]
fn array_builder_synthesizes_decimal_keys() {
    let mut arr = RawArrayBuf::new();
    arr.push(&Bson::String(key("a string"))).unwrap();
    arr.push(&Bson::Int32(12)).unwrap();
    let expected = encode_document(&vec![
        (key("0"), Bson::String(key("a string"))),
        (key("1"), Bson::Int32(12)),
    ])
    .unwrap();
    assert_eq!(arr.as_bytes().clone(), expected);
    assert_eq!(arr.element_count(), 2);
}

#[test]
fn array_builder_from_typed_values() {
    let values = vec![Bson::Int32(5), Bson::String(b"x".to_vec())];
    let arr = RawArrayBuf::from_values(&values).unwrap();
    assert_eq!(arr.element_count(), 2);
    let expected = encode_document(&vec![
        (key("0"), Bson::Int32(5)),
        (key("1"), Bson::String(b"x".to_vec())),
    ])
    .unwrap();
    assert_eq!(arr.as_bytes().clone(), expected);
    assert!(RawArrayBuf::from_values(&vec![Bson::ObjectId(vec![1])]).is_err());
}

#[test]
fn array_builder_from_document_counts_once() {
    let mut arr = RawArrayBuf::new();
    for i in 0..12 {
        arr.push(&Bson::Int32(i)).unwrap();
    }
    let bytes = arr.as_bytes().clone();
    let doc = RawDocumentBuf::from_vec(bytes).unwrap();
    let arr2 = RawArrayBuf::from_raw_document_buf(doc);
    assert_eq!(arr2.element_count(), 12);
}

#[test]
fn raw_view_rejects_immediate_mismatch() {
    assert!(RawDocument::new(&[1, 2, 3]).is_err());
    assert!(RawDocument::new(&[6, 0, 0, 0, 0]).is_err());
    assert!(RawDocument::new(&[5, 0, 0, 0, 1]).is_err());
    assert!(RawDocument::new(&[5, 0, 0, 0, 0]).is_ok());
}

#[test]
fn raw_iteration_is_lazy_and_stops_at_the_first_invalid_element() {
    // Two valid elements followed by one with an unknown tag.
    let mut bytes = Vec::new();
    let body: Vec<u8> = vec![
        0x10, b'a', 0, 1, 0, 0, 0, // a: 1
        0x10, b'b', 0, 2, 0, 0, 0, // b: 2
        0xee, b'c', 0, // unknown tag
    ];
    bytes.extend_from_slice(&((body.len() + 5) as u32).to_le_bytes());
    bytes.extend_from_slice(&body);
    bytes.push(0);
    let doc = RawDocument::new(&bytes).unwrap();
    let mut iter = doc.iter();
    let (k1, v1) = iter.next().unwrap().unwrap();
    assert_eq!(k1, b"a");
    assert!(matches!(v1, RawValueRef::Int32(1)));
    let (k2, v2) = iter.next().unwrap().unwrap();
    assert_eq!(k2, b"b");
    assert!(matches!(v2, RawValueRef::Int32(2)));
    assert!(iter.next().unwrap().is_err());
    assert!(iter.next().is_none());
}

#[test]
fn raw_get_scans_to_the_first_match() {
    let doc_entries = vec![
        (key("a"), Bson::Int32(1)),
        (key("b"), Bson::String(key("two"))),
    ];
    let bytes = encode_document(&doc_entries).unwrap();
    let doc = RawDocument::new(&bytes).unwrap();
    assert!(matches!(doc.get(b"a").unwrap(), Some(RawValueRef::Int32(1))));
    match doc.get(b"b").unwrap() {
        Some(RawValueRef::String(s)) => assert_eq!(s, b"two"),
        other => panic!("unexpected value: {:?}", other.is_some()),
    }
    assert!(doc.get(b"zzz").unwrap().is_none());
}

#[test]
fn raw_array_get_is_by_position() {
    let mut arr = RawArrayBuf::new();
    arr.push(&Bson::Int32(10)).unwrap();
    arr.push(&Bson::Int32(20)).unwrap();
    let bytes = arr.as_bytes().clone();
    let raw = RawArray::new(&bytes).unwrap();
    assert!(matches!(raw.get(1).unwrap(), Some(RawValueRef::Int32(20))));
    assert!(raw.get(2).unwrap().is_none());
}

#[test]
fn encode_value_appends_exactly_the_payload() {
    let mut buf = Vec::new();
    encode_value_into(&Bson::Int32(258), &mut buf).unwrap();
    assert_eq!(buf, vec![2, 1, 0, 0]);
}

#[test]
fn empty_key_roundtrips() {
    let doc = vec![(Vec::new(), Bson::Int32(9))];
    let bytes = encode_document(&doc).unwrap();
    assert_eq!(bytes, vec![11, 0, 0, 0, 0x10, 0, 9, 0, 0, 0, 0]);
    assert_eq!(decode_document(&bytes).unwrap(), doc);
}

#[test]
fn equal_keys_keep_their_order_and_get_finds_the_first() {
    let doc = vec![
        (key("k"), Bson::Int32(1)),
        (key("k"), Bson::Int32(2)),
    ];
    let bytes = encode_document(&doc).unwrap();
    assert_eq!(decode_document(&bytes).unwrap(), doc);
    let raw = RawDocument::new(&bytes).unwrap();
    assert!(matches!(raw.get(b"k").unwrap(), Some(RawValueRef::Int32(1))));
}

#[test]
fn deeply_nested_documents_roundtrip() {
    let mut v = Bson::Int32(5);
    for _ in 0..40 {
        v = Bson::Document(vec![(key("n"), v)]);
    }
    let doc = vec![(key("root"), v)];
    let bytes = encode_document(&doc).unwrap();
    assert_eq!(decode_document(&bytes).unwrap(), doc);
}
