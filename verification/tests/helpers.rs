//! The conversion helpers: exactness-checked numerics, the timestamp
//! guard, the legacy identifier byte orders, and the date-time text
//! adapters.

use bson::convert::{
    f64_bits_to_u32, f64_bits_to_u64_exact, timestamp_as_u32, u32_as_timestamp, u32_to_f64_bits,
    u32_to_i32_exact, u32_to_i64, u64_to_f64_bits, u64_to_i32_exact, u64_to_i64_exact,
};
use bson::datetime::{datetime_millis_from_rfc3339, datetime_millis_to_rfc3339, to_human_readable};
use bson::uuid::{uuid_from_binary, uuid_to_binary, UuidRepresentation};
use bson::oid::{bytes_to_hex, hex_to_bytes, object_id_parse_hex, object_id_to_hex};
use bson::value::{Bson, Timestamp};
use bson::wrappers::{HumanReadable, Utf8LossyDeserialization};

#[test]
fn test_unsigned_helpers() {
    assert_eq!(u32_to_i32_exact(1), Some(1));
    assert_eq!(u64_to_i32_exact(2), Some(2));
    assert_eq!(u32_to_i32_exact(u32::MAX), None);
    assert_eq!(u64_to_i32_exact(u64::MAX), None);

    assert_eq!(u32_to_i64(u32::MAX), u32::MAX as i64);
    assert_eq!(u64_to_i64_exact(i64::MAX as u64), Some(i64::MAX));
    assert_eq!(u64_to_i64_exact(i64::MAX as u64 + 1), None);

    let b101 = u32_to_f64_bits(101);
    assert_eq!(b101, (101.0f64).to_bits());
    assert_eq!(f64_bits_to_u32(b101), Some(101));
    let b12345 = u64_to_f64_bits(12345).unwrap();
    assert_eq!(b12345, (12345.0f64).to_bits());
    assert_eq!(f64_bits_to_u64_exact(b12345), Some(12345));

    assert_eq!(u64_to_f64_bits(u64::MAX), None);
    assert_eq!(u64_to_f64_bits(u64::MAX - 255), None);
}

#[test]
fn u64_as_f64_is_exact_at_the_53_bit_boundary() {
    let exact = 1u64 << 53;
    let bits = u64_to_f64_bits(exact).unwrap();
    assert_eq!(bits, (exact as f64).to_bits());
    assert_eq!(f64_bits_to_u64_exact(bits), Some(exact));

    assert_eq!(u64_to_f64_bits(exact + 1), None);
    assert_eq!(u64_to_f64_bits(exact + 2), Some(((exact + 2) as f64).to_bits()));
}

#[test]
fn f64_to_integer_rejects_non_integers_and_negatives() {
    assert_eq!(f64_bits_to_u64_exact((2.5f64).to_bits()), None);
    assert_eq!(f64_bits_to_u64_exact((-3.0f64).to_bits()), None);
    assert_eq!(f64_bits_to_u64_exact((-0.0f64).to_bits()), Some(0));
    assert_eq!(f64_bits_to_u64_exact(f64::NAN.to_bits()), None);
    assert_eq!(f64_bits_to_u64_exact(f64::INFINITY.to_bits()), None);
    assert_eq!(f64_bits_to_u64_exact((18446744073709551616.0f64).to_bits()), None);
    assert_eq!(f64_bits_to_u64_exact((9223372036854775808.0f64).to_bits()), Some(1u64 << 63));
    assert_eq!(f64_bits_to_u32((4294967296.0f64).to_bits()), None);
    assert_eq!(f64_bits_to_u32((4294967295.0f64).to_bits()), Some(u32::MAX));
}

#[test]
fn u32_from_f64_is_epsilon_bounded() {
    // The double one ulp above 1 lies within epsilon of 1 and is taken.
    assert_eq!(f64_bits_to_u32(0x3ff0_0000_0000_0001), Some(1));
    // Magnitudes up to epsilon are taken as zero, either side of it.
    assert_eq!(f64_bits_to_u32(2f64.powi(-53).to_bits()), Some(0));
    assert_eq!(f64_bits_to_u32((-(2f64.powi(-53))).to_bits()), Some(0));
    assert_eq!(f64_bits_to_u32(2f64.powi(-52).to_bits()), Some(0));
    assert_eq!(f64_bits_to_u32((-(2f64.powi(-52))).to_bits()), Some(0));
    // Beyond the tolerance the fraction is refused, never rounded.
    assert_eq!(f64_bits_to_u32((0.5f64).to_bits()), None);
    assert_eq!(f64_bits_to_u32((1.5f64).to_bits()), None);
    assert_eq!(f64_bits_to_u32((2.0f64 + 2f64.powi(-51)).to_bits()), None);
    assert_eq!(f64_bits_to_u32((-1.0f64).to_bits()), None);
    assert_eq!(f64_bits_to_u32(f64::NAN.to_bits()), None);
    // The epsilon and the original truncating test agree on integers.
    for v in 0u32..500 {
        assert_eq!(f64_bits_to_u32((v as f64).to_bits()), Some(v));
        let f = v as f64;
        let taken = (f - f as u32 as f64).abs() <= f64::EPSILON;
        assert!(taken);
    }
}

#[test]
fn f64_bits_cover_every_small_integer() {
    for v in 0u64..2000 {
        let bits = u64_to_f64_bits(v).unwrap();
        assert_eq!(bits, (v as f64).to_bits());
        assert_eq!(f64_bits_to_u64_exact(bits), Some(v));
    }
}

#[test]
fn test_timestamp_helpers() {
    let time = 12345;
    let timestamp = u32_as_timestamp(time);
    assert_eq!(timestamp.time, time);
    assert_eq!(timestamp.increment, 0);
    assert_eq!(timestamp_as_u32(&timestamp), Some(time));

    let timestamp = Timestamp { time: 12334, increment: 1 };
    assert_eq!(timestamp_as_u32(&timestamp), None);
}

#[test]
fn test_serde_legacy_uuid_1() {
    let uuid: Vec<u8> = vec![
        0x00, 0x11, 0x22, 0x33, 0x44, 0x55, 0x66, 0x77, 0x88, 0x99, 0xaa, 0xbb, 0xcc, 0xdd, 0xee,
        0xff,
    ];

    let java = uuid_to_binary(&uuid, UuidRepresentation::JavaLegacy).unwrap();
    let expected_java: Vec<u8> = vec![
        0x77, 0x66, 0x55, 0x44, 0x33, 0x22, 0x11, 0x00, 0xff, 0xee, 0xdd, 0xcc, 0xbb, 0xaa, 0x99,
        0x88,
    ];
    match &java {
        Bson::Binary(subtype, bytes) => {
            assert_eq!(*subtype, 0x03);
            assert_eq!(*bytes, expected_java);
            assert_eq!(
                uuid_from_binary(*subtype, bytes, UuidRepresentation::JavaLegacy).unwrap(),
                uuid
            );
        }
        other => panic!("expected binary, got {:?}", other),
    }

    let python = uuid_to_binary(&uuid, UuidRepresentation::PythonLegacy).unwrap();
    let expected_python: Vec<u8> = vec![
        0x00, 0x11, 0x22, 0x33, 0x44, 0x55, 0x66, 0x77, 0x88, 0x99, 0xaa, 0xbb, 0xcc, 0xdd, 0xee,
        0xff,
    ];
    match &python {
        Bson::Binary(subtype, bytes) => {
            assert_eq!(*subtype, 0x03);
            assert_eq!(*bytes, expected_python);
            assert_eq!(
                uuid_from_binary(*subtype, bytes, UuidRepresentation::PythonLegacy).unwrap(),
                uuid
            );
        }
        other => panic!("expected binary, got {:?}", other),
    }

    let csharp = uuid_to_binary(&uuid, UuidRepresentation::CSharpLegacy).unwrap();
    let expected_csharp: Vec<u8> = vec![
        0x33, 0x22, 0x11, 0x00, 0x55, 0x44, 0x77, 0x66, 0x88, 0x99, 0xaa, 0xbb, 0xcc, 0xdd, 0xee,
        0xff,
    ];
    match &csharp {
        Bson::Binary(subtype, bytes) => {
            assert_eq!(*subtype, 0x03);
            assert_eq!(*bytes, expected_csharp);
            assert_eq!(
                uuid_from_binary(*subtype, bytes, UuidRepresentation::CSharpLegacy).unwrap(),
                uuid
            );
        }
        other => panic!("expected binary, got {:?}", other),
    }
}

#[test]
fn uuid_subtype_must_match_the_representation() {
    let wire: Vec<u8> = vec![0; 16];
    assert!(uuid_from_binary(0x04, &wire, UuidRepresentation::JavaLegacy).is_err());
    assert!(uuid_from_binary(0x03, &wire, UuidRepresentation::Standard).is_err());
    assert!(uuid_from_binary(0x03, &vec![0; 15], UuidRepresentation::JavaLegacy).is_err());
}

#[test]
fn uuid_decodes_back_only_under_the_matching_representation() {
    let uuid: Vec<u8> = vec![
        0x00, 0x11, 0x22, 0x33, 0x44, 0x55, 0x66, 0x77, 0x88, 0x99, 0xaa, 0xbb, 0xcc, 0xdd, 0xee,
        0xff,
    ];
    let java_wire = match uuid_to_binary(&uuid, UuidRepresentation::JavaLegacy).unwrap() {
        Bson::Binary(_, bytes) => bytes,
        _ => unreachable!(),
    };
    assert_eq!(
        uuid_from_binary(0x03, &java_wire, UuidRepresentation::JavaLegacy).unwrap(),
        uuid
    );
    // The other legacy orders share the subtype, so decoding succeeds but
    // yields a different identifier.
    assert_ne!(
        uuid_from_binary(0x03, &java_wire, UuidRepresentation::CSharpLegacy).unwrap(),
        uuid
    );
    assert_ne!(
        uuid_from_binary(0x03, &java_wire, UuidRepresentation::PythonLegacy).unwrap(),
        uuid
    );
}

#[test]
fn test_datetime_rfc3339_string_helpers() {
    // 1996-12-20T00:39:57Z
    let ms: i64 = 851042397000;
    let text = datetime_millis_to_rfc3339(ms).unwrap();
    assert_eq!(text, b"1996-12-20T00:39:57Z".to_vec());
    assert_eq!(datetime_millis_from_rfc3339(&text), Some(ms));
    assert_eq!(datetime_millis_from_rfc3339(b"not_a_valid_date"), None);
    assert_eq!(datetime_millis_from_rfc3339(b"also_invalid_date"), None);
}

#[test]
fn large_dates() {
    // The minimum date-time lies outside the civil range of the text
    // form, but still round-trips losslessly through the raw bytes.
    assert_eq!(datetime_millis_to_rfc3339(i64::MIN), None);
    let doc = vec![(b"d".to_vec(), Bson::DateTime(i64::MIN))];
    let bytes = bson::encoding::encode_document(&doc).unwrap();
    assert_eq!(bson::decoding::decode_document(&bytes).unwrap(), doc);
}

#[test]
fn human_readable_rewrites_datetimes_recursively() {
    let doc = Bson::Document(vec![
        (b"when".to_vec(), Bson::DateTime(851042397000)),
        (
            b"inner".to_vec(),
            Bson::Document(vec![(b"also".to_vec(), Bson::DateTime(0))]),
        ),
        (b"n".to_vec(), Bson::Int32(3)),
    ]);
    let hr = to_human_readable(&doc);
    let expected = Bson::Document(vec![
        (
            b"when".to_vec(),
            Bson::String(b"1996-12-20T00:39:57Z".to_vec()),
        ),
        (
            b"inner".to_vec(),
            Bson::Document(vec![(
                b"also".to_vec(),
                Bson::String(b"1970-01-01T00:00:00Z".to_vec()),
            )]),
        ),
        (b"n".to_vec(), Bson::Int32(3)),
    ]);
    assert_eq!(hr, expected);
}

#[test]
fn human_readable_is_idempotent_on_its_output() {
    let doc = Bson::Document(vec![
        (b"when".to_vec(), Bson::DateTime(851042397000)),
        (b"far".to_vec(), Bson::DateTime(i64::MIN)),
    ]);
    let once = to_human_readable(&doc);
    let twice = to_human_readable(&once);
    assert_eq!(twice, once);
}

#[test]
fn test_oid_helpers() {
    let oid: Vec<u8> = vec![
        0x50, 0x7f, 0x1f, 0x77, 0xbc, 0xf8, 0x6c, 0xd7, 0x99, 0x43, 0x90, 0x11,
    ];
    let hex = object_id_to_hex(&oid).unwrap();
    assert_eq!(hex, b"507f1f77bcf86cd799439011".to_vec());
    assert_eq!(object_id_parse_hex(&hex).unwrap(), oid);
    assert_eq!(object_id_parse_hex(b"507F1F77BCF86CD799439011").unwrap(), oid);
    assert!(object_id_parse_hex(b"invalid_oid").is_none());
    assert!(object_id_parse_hex(b"not_a_valid_oid_24_chars").is_none());
    assert!(object_id_to_hex(&vec![1, 2, 3]).is_none());
}

#[test]
fn hex_text_roundtrips_arbitrary_bytes() {
    let bytes: Vec<u8> = vec![0, 1, 15, 16, 127, 128, 255];
    let hex = bytes_to_hex(&bytes);
    assert_eq!(hex, b"00010f107f80ff".to_vec());
    assert_eq!(hex_to_bytes(&hex).unwrap(), bytes);
    assert!(hex_to_bytes(b"abc").is_none());
    assert!(hex_to_bytes(b"zz").is_none());
}

#[test]
fn wrapper_types_carry_their_value() {
    let h = HumanReadable::new(5u32);
    assert_eq!(*h.get(), 5);
    assert_eq!(h.into_inner(), 5);
    let l = Utf8LossyDeserialization::new(7u32);
    assert_eq!(l.0, 7);
    assert_eq!(l.into_inner(), 7);
}
