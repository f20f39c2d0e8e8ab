//! Typed mapping and error-path reporting.

use bson::encoding::encode_document;
use bson::typed::{
    read_typed, read_typed_from_slice, write_typed, write_typed_to_vec, Shape, TypedFromBytesError,
    TypedToBytesError, TypedValue,
};
use bson::value::Bson;

fn key(s: &str) -> Vec<u8> {
    s.as_bytes().to_vec()
}

/// `{"one": {"value": 42}, "two": {"value": "hello"}}` as entries.
fn nested_doc() -> Vec<(Vec<u8>, Bson)> {
    vec![
        (
            key("one"),
            Bson::Document(vec![(key("value"), Bson::Int32(42))]),
        ),
        (
            key("two"),
            Bson::Document(vec![(key("value"), Bson::String(key("hello")))]),
        ),
    ]
}

/// A shape expecting an unsigned integer at both `value` fields.
fn nested_shape() -> Shape {
    Shape::Record(vec![
        (key("one"), Shape::Record(vec![(key("value"), Shape::U64)])),
        (key("two"), Shape::Record(vec![(key("value"), Shape::U64)])),
    ])
}

/// A typed record with an unrepresentable integer at `two.value`.
fn oversized_record() -> TypedValue {
    TypedValue::Record(vec![
        (
            key("one"),
            TypedValue::Record(vec![(key("value"), TypedValue::U64(42))]),
        ),
        (
            key("two"),
            TypedValue::Record(vec![(key("value"), TypedValue::U64(u64::MAX))]),
        ),
    ])
}

#[test]
fn de() {
    let src = Bson::Document(nested_doc());
    let result = read_typed(&src, &nested_shape());
    assert!(result.is_err());
    let path = result.unwrap_err().path;
    assert_eq!(path, key("two.value"));
}

#[test]
fn de_raw() {
    let src = encode_document(&nested_doc()).unwrap();
    let result = read_typed_from_slice(&src, &nested_shape());
    assert!(result.is_err());
    let path = match result.unwrap_err() {
        TypedFromBytesError::Mismatch(e) => e.path,
        TypedFromBytesError::Malformed(e) => panic!("unexpected decode failure: {:?}", e),
    };
    assert_eq!(path, key("two.value"));
}

#[test]
fn ser() {
    let src = oversized_record();
    let result = write_typed(&src);
    assert!(result.is_err());
    let path = result.unwrap_err().path;
    assert_eq!(path, key("two.value"));
}

#[test]
fn ser_raw() {
    let src = oversized_record();
    let result = write_typed_to_vec(&src);
    assert!(result.is_err());
    let path = match result.unwrap_err() {
        TypedToBytesError::Mismatch(e) => e.path,
        TypedToBytesError::Unencodable(e) => panic!("unexpected encode failure: {:?}", e),
    };
    assert_eq!(path, key("two.value"));
}

#[test]
fn de_list_path_is_bracket_indexed() {
    let src = Bson::Document(vec![(
        key("xs"),
        Bson::Array(vec![Bson::Int32(1), Bson::String(key("oops"))]),
    )]);
    let shape = Shape::Record(vec![(key("xs"), Shape::List(Box::new(Shape::U64)))]);
    let result = read_typed(&src, &shape);
    let path = result.unwrap_err().path;
    assert_eq!(path, key("xs[1]"));
}

#[test]
fn de_missing_field_reports_its_name() {
    let src = Bson::Document(vec![(key("one"), Bson::Int32(5))]);
    let shape = Shape::Record(vec![(key("one"), Shape::U64), (key("gone"), Shape::U64)]);
    let result = read_typed(&src, &shape);
    let path = result.unwrap_err().path;
    assert_eq!(path, key("gone"));
}

#[test]
fn de_negative_integer_is_rejected_for_unsigned() {
    let src = Bson::Document(vec![(key("n"), Bson::Int64(-1))]);
    let shape = Shape::Record(vec![(key("n"), Shape::U64)]);
    let result = read_typed(&src, &shape);
    assert_eq!(result.unwrap_err().path, key("n"));
}

#[test]
fn ser_rejects_invalid_text_with_its_path() {
    let src = TypedValue::Record(vec![
        (key("ok"), TypedValue::U64(1)),
        (
            key("inner"),
            TypedValue::Record(vec![(key("t"), TypedValue::Text(vec![0xff, 0xfe]))]),
        ),
    ]);
    let result = write_typed(&src);
    assert_eq!(result.unwrap_err().path, key("inner.t"));
}

#[test]
fn ser_rejects_an_invalid_field_name() {
    let src = TypedValue::Record(vec![(vec![b'a', 0, b'b'], TypedValue::U64(1))]);
    let result = write_typed(&src);
    assert_eq!(result.unwrap_err().path, vec![b'a', 0, b'b']);
}

#[test]
fn typed_roundtrip_through_bytes() {
    let src = TypedValue::Record(vec![
        (key("a"), TypedValue::U64(7)),
        (key("b"), TypedValue::Text(key("x"))),
        (
            key("c"),
            TypedValue::List(vec![TypedValue::U64(1), TypedValue::U64(2)]),
        ),
    ]);
    let bytes = write_typed_to_vec(&src).unwrap();
    let shape = Shape::Record(vec![
        (key("a"), Shape::U64),
        (key("b"), Shape::Text),
        (key("c"), Shape::List(Box::new(Shape::U64))),
    ]);
    let back = read_typed_from_slice(&bytes, &shape).unwrap();
    assert_eq!(back, src);
}
