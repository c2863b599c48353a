use byteorder::{BigEndian, WriteBytesExt};
use tantivy::schema::Field;
use tantivy::Term;
use tantivy_viewer::bytes::{bytes_eq, bytes_lt, bytes_to_vec};
use tantivy_viewer::codec::{decode_i64, decode_u64, encode_i64, encode_u64};
use tantivy_viewer::parse::{encode_term_text, parse_i64, parse_u64};
use tantivy_viewer::segment::{hex_digit_value, parse_segment_id, starts_with};
use tantivy_viewer::{stringify_values, TantivyValue, ValueType, ViewerError};

fn text(s: &str) -> TantivyValue {
    TantivyValue::Text(s.to_string())
}

#[test]
fn unsigned_key_is_eight_bytes_big_endian() {
    assert_eq!(encode_u64(0), vec![0, 0, 0, 0, 0, 0, 0, 0]);
    assert_eq!(encode_u64(1), vec![0, 0, 0, 0, 0, 0, 0, 1]);
    assert_eq!(encode_u64(0x0102030405060708), vec![1, 2, 3, 4, 5, 6, 7, 8]);
    assert_eq!(encode_u64(u64::MAX), vec![255; 8]);
    for v in [0u64, 1, 255, 256, 65_535, 1 << 40, u64::MAX - 1, u64::MAX] {
        let mut expected = Vec::new();
        expected.write_u64::<BigEndian>(v).unwrap();
        assert_eq!(encode_u64(v), expected);
    }
}

#[test]
fn signed_key_flips_the_sign_bit() {
    assert_eq!(encode_i64(0), vec![0x80, 0, 0, 0, 0, 0, 0, 0]);
    assert_eq!(encode_i64(-1), vec![0x7f, 255, 255, 255, 255, 255, 255, 255]);
    assert_eq!(encode_i64(i64::MIN), vec![0; 8]);
    assert_eq!(encode_i64(i64::MAX), vec![255; 8]);
    for v in [i64::MIN, -256, -1, 0, 1, 2, 1 << 40, i64::MAX] {
        let mut expected = Vec::new();
        expected.write_u64::<BigEndian>((v as u64) ^ (1 << 63)).unwrap();
        assert_eq!(encode_i64(v), expected);
    }
}

#[test]
fn keys_are_those_of_the_index() {
    let field = Field::from_field_id(3);
    for v in [0u64, 7, 1 << 33, u64::MAX] {
        assert_eq!(encode_u64(v), Term::from_field_u64(field, v).serialized_value_bytes());
        assert_eq!(
            TantivyValue::U64(v).to_key(),
            Term::from_field_u64(field, v).serialized_value_bytes()
        );
    }
    for v in [i64::MIN, -9, 0, 9, i64::MAX] {
        assert_eq!(encode_i64(v), Term::from_field_i64(field, v).serialized_value_bytes());
    }
    assert_eq!(
        text("héllo wörld").to_key(),
        Term::from_field_text(field, "héllo wörld").serialized_value_bytes()
    );
    assert_eq!(
        TantivyValue::Bytes(vec![0, 255, 7]).to_key(),
        Term::from_field_bytes(field, &[0, 255, 7]).serialized_value_bytes()
    );
}

#[test]
fn key_order_is_numeric_order() {
    let signed = [i64::MIN, -1_000_000, -2, -1, 0, 1, 2, 1_000_000, i64::MAX];
    for pair in signed.windows(2) {
        assert!(bytes_lt(&encode_i64(pair[0]), &encode_i64(pair[1])));
        assert!(!bytes_lt(&encode_i64(pair[1]), &encode_i64(pair[0])));
    }
    let unsigned = [0u64, 1, 255, 256, 1 << 32, u64::MAX];
    for pair in unsigned.windows(2) {
        assert!(bytes_lt(&encode_u64(pair[0]), &encode_u64(pair[1])));
        assert!(!bytes_lt(&encode_u64(pair[1]), &encode_u64(pair[0])));
    }
}

#[test]
fn keys_decode_to_their_values() {
    for v in [0u64, 1, 1 << 63, u64::MAX] {
        assert_eq!(decode_u64(&encode_u64(v)), Some(v));
        assert_eq!(
            TantivyValue::from_term(&encode_u64(v), ValueType::U64).unwrap(),
            TantivyValue::U64(v)
        );
    }
    for v in [i64::MIN, -1, 0, 1, i64::MAX] {
        assert_eq!(decode_i64(&encode_i64(v)), Some(v));
        assert_eq!(
            TantivyValue::from_term(&encode_i64(v), ValueType::I64).unwrap(),
            TantivyValue::I64(v)
        );
    }
    assert_eq!(TantivyValue::from_term("grüß".as_bytes(), ValueType::Str).unwrap(), text("grüß"));
    assert_eq!(
        TantivyValue::from_term(&[1, 2, 255], ValueType::Bytes).unwrap(),
        TantivyValue::Bytes(vec![1, 2, 255])
    );
}

#[test]
fn keys_of_the_wrong_form_are_invalid() {
    assert_eq!(decode_u64(&[1, 2, 3]), None);
    assert_eq!(decode_u64(&[0; 9]), None);
    assert_eq!(decode_i64(&[]), None);
    assert!(matches!(
        TantivyValue::from_term(&[1, 2, 3], ValueType::U64),
        Err(ViewerError::InvalidTermValue)
    ));
    assert!(matches!(
        TantivyValue::from_term(&[0; 7], ValueType::I64),
        Err(ViewerError::InvalidTermValue)
    ));
    assert!(matches!(
        TantivyValue::from_term(&[0xff, 0xfe], ValueType::Str),
        Err(ViewerError::InvalidTermValue)
    ));
}

#[test]
fn types_without_a_codec_are_unimplemented() {
    for ty in [
        ValueType::Facet,
        ValueType::F64,
        ValueType::Bool,
        ValueType::Date,
        ValueType::Json,
        ValueType::IpAddr,
    ] {
        assert!(matches!(
            TantivyValue::from_term(&[0; 8], ty),
            Err(ViewerError::Unimplemented)
        ));
        assert!(matches!(encode_term_text("1", ty), Err(ViewerError::Unimplemented)));
    }
    assert!(matches!(encode_term_text("1", ValueType::Bytes), Err(ViewerError::Unimplemented)));
}

#[test]
fn integers_parse_as_in_decimal_notation() {
    let cases = [
        "0", "7", "+7", "-7", "007", "18446744073709551615", "18446744073709551616",
        "9223372036854775807", "9223372036854775808", "-9223372036854775808",
        "-9223372036854775809", "", "+", "-", "1 ", " 1", "1_000", "0x10", "१२", "--1", "+-1",
        "99999999999999999999999999999",
    ];
    for case in cases {
        assert_eq!(parse_u64(case.as_bytes()), case.parse::<u64>().ok(), "{:?}", case);
        assert_eq!(parse_i64(case.as_bytes()), case.parse::<i64>().ok(), "{:?}", case);
    }
    assert_eq!(parse_u64(b"42"), Some(42));
    assert_eq!(parse_i64(b"-42"), Some(-42));
    assert_eq!(parse_i64(b"-9223372036854775808"), Some(i64::MIN));
}

#[test]
fn term_text_becomes_the_key_of_its_value() {
    assert_eq!(encode_term_text("42", ValueType::U64).unwrap(), encode_u64(42));
    assert_eq!(encode_term_text("-42", ValueType::I64).unwrap(), encode_i64(-42));
    assert_eq!(encode_term_text("A b", ValueType::Str).unwrap(), b"A b".to_vec());
    assert!(matches!(
        encode_term_text("forty", ValueType::U64),
        Err(ViewerError::InvalidTermValue)
    ));
    assert!(matches!(encode_term_text("-1", ValueType::U64), Err(ViewerError::InvalidTermValue)));
    assert!(matches!(encode_term_text("1.5", ValueType::I64), Err(ViewerError::InvalidTermValue)));
}

#[test]
fn values_show_as_text() {
    assert_eq!(TantivyValue::I64(0).to_string(), "0");
    assert_eq!(TantivyValue::I64(-12).to_string(), "-12");
    assert_eq!(TantivyValue::I64(i64::MIN).to_string(), "-9223372036854775808");
    assert_eq!(TantivyValue::I64(i64::MAX).to_string(), "9223372036854775807");
    assert_eq!(TantivyValue::U64(u64::MAX).to_string(), "18446744073709551615");
    assert_eq!(TantivyValue::U64(1000).to_string(), "1000");
    assert_eq!(text("a b").to_string(), "a b");
    assert_eq!(TantivyValue::Bytes(vec![1, 2, 3]).to_string(), "[3 bytes]");
    assert_eq!(TantivyValue::Bytes(vec![]).to_string(), "[0 bytes]");
}

#[test]
fn stringify_skips_gaps() {
    assert_eq!(stringify_values(vec![]), "");
    assert_eq!(stringify_values(vec![None, None]), "");
    assert_eq!(
        stringify_values(vec![Some(TantivyValue::I64(1)), None, Some(text("x"))]),
        "1 x "
    );
    assert_eq!(stringify_values(vec![Some(TantivyValue::Bytes(vec![9; 10]))]), "[10 bytes] ");
}

#[test]
fn values_compare_by_variant_then_content() {
    assert!(TantivyValue::I64(5) < TantivyValue::U64(0));
    assert!(TantivyValue::U64(5) < text(""));
    assert!(text("z") < TantivyValue::Bytes(vec![]));
    assert!(TantivyValue::I64(-1) < TantivyValue::I64(1));
    assert!(text("a") < text("b"));
    assert_eq!(text("a").duplicate(), text("a"));
    assert_eq!(TantivyValue::Bytes(vec![1]).duplicate(), TantivyValue::Bytes(vec![1]));
    assert_eq!(TantivyValue::U64(3).value_type(), ValueType::U64);
    assert_eq!(text("a").value_type(), ValueType::Str);
}

#[test]
fn byte_strings_order_lexicographically() {
    let samples: [&[u8]; 8] =
        [b"", b"a", b"aa", b"ab", b"b", &[0], &[255], &[0, 0, 1]];
    for a in samples {
        for b in samples {
            assert_eq!(bytes_lt(a, b), a < b, "{:?} {:?}", a, b);
            assert_eq!(bytes_eq(a, b), a == b, "{:?} {:?}", a, b);
        }
        assert_eq!(bytes_to_vec(a), a.to_vec());
    }
}

#[test]
fn segment_ids_are_thirty_two_hex_digits() {
    assert_eq!(parse_segment_id("00000000000000000000000000000000"), Some(0));
    assert_eq!(parse_segment_id("0000000000000000000000000000000f"), Some(15));
    assert_eq!(parse_segment_id("ffffffffffffffffffffffffffffffff"), Some(u128::MAX));
    assert_eq!(
        parse_segment_id("a5c4dfcbdfe645089129e308e26d5523"),
        Some(0xa5c4dfcbdfe645089129e308e26d5523)
    );
    assert_eq!(
        parse_segment_id("A5C4DFCBDFE645089129E308E26D5523"),
        Some(0xa5c4dfcbdfe645089129e308e26d5523)
    );
    assert_eq!(parse_segment_id(""), None);
    assert_eq!(parse_segment_id("a5c4dfcb"), None);
    assert_eq!(parse_segment_id("a5c4dfcbdfe645089129e308e26d55230"), None);
    assert_eq!(parse_segment_id("g5c4dfcbdfe645089129e308e26d5523"), None);
    assert_eq!(parse_segment_id("a5c4dfcb-dfe6-4508-9129-e308e26d55"), None);
    assert_eq!(hex_digit_value(b'7'), Some(7));
    assert_eq!(hex_digit_value(b'c'), Some(12));
    assert_eq!(hex_digit_value(b'C'), Some(12));
    assert_eq!(hex_digit_value(b'g'), None);
    assert_eq!(hex_digit_value(b' '), None);
}

#[test]
fn prefixes_are_matched_byte_by_byte() {
    assert!(starts_with(b"abc", b""));
    assert!(starts_with(b"abc", b"ab"));
    assert!(starts_with(b"abc", b"abc"));
    assert!(!starts_with(b"abc", b"abcd"));
    assert!(!starts_with(b"abc", b"b"));
    assert!(!starts_with(b"", b"a"));
}

#[test]
fn errors_are_sorted_by_who_is_to_blame() {
    assert!(ViewerError::FieldNotFound.is_client_error());
    assert!(ViewerError::UnsupportedFieldAccess.is_client_error());
    assert!(ViewerError::SegmentNotFound.is_client_error());
    assert!(ViewerError::InvalidTermValue.is_client_error());
    assert!(!ViewerError::Unimplemented.is_client_error());
    let storage = ViewerError::Storage(tantivy::TantivyError::InternalError("x".to_string()));
    assert!(!storage.is_client_error());
}
