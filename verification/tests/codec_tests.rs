//! Scenario tests for the value codec and its round-trip guarantees.

use sqldump::codec::{decode_string_literal, encode_value, escape_content};
use sqldump::splitter::split_sql_statements;
use sqldump::value::SqlValue;

#[test]
fn decoding_an_encoded_byte_string_recovers_the_bytes() {
    let cases: Vec<Vec<u8>> = vec![
        b"".to_vec(),
        b"hello".to_vec(),
        b"it's".to_vec(),
        vec![b'\\', b'\''],
        vec![b'\\', b'\\', b'\'', b'\\', b'\'', b'\''],
        vec![0, b'\n', b'\r', 0x1a, b'\\', b'\''],
        vec![0xff, 0x00, 0xfe],
        b"a;b -- /* */ `q` \"d\"".to_vec(),
    ];
    for bytes in cases {
        let lit = encode_value(&SqlValue::Bytes(bytes.clone()));
        assert_eq!(decode_string_literal(&lit), Some(bytes));
    }
}

#[test]
fn decoder_reads_doubled_quotes_and_rejects_malformed_literals() {
    assert_eq!(decode_string_literal(b"'it''s'"), Some(b"it's".to_vec()));
    assert_eq!(decode_string_literal(b"'a\\tb'"), Some(b"a\tb".to_vec()));
    assert_eq!(decode_string_literal(b"'unterminated"), None);
    assert_eq!(decode_string_literal(b"'trailing' junk"), None);
    assert_eq!(decode_string_literal(b"no quote"), None);
    assert_eq!(decode_string_literal(b"'ends with escape\\"), None);
    assert_eq!(decode_string_literal(b"'"), None);
    assert_eq!(decode_string_literal(b"''"), Some(Vec::new()));
}

#[test]
fn null_encodes_to_bare_keyword() {
    assert_eq!(encode_value(&SqlValue::Null), b"NULL".to_vec());
}

#[test]
fn integers_encode_to_plain_decimal() {
    assert_eq!(encode_value(&SqlValue::Int(0)), b"0".to_vec());
    assert_eq!(encode_value(&SqlValue::Int(42)), b"42".to_vec());
    assert_eq!(encode_value(&SqlValue::Int(-7)), b"-7".to_vec());
    assert_eq!(
        encode_value(&SqlValue::Int(i64::MAX)),
        b"9223372036854775807".to_vec()
    );
    assert_eq!(
        encode_value(&SqlValue::Int(i64::MIN)),
        b"-9223372036854775808".to_vec()
    );
    assert_eq!(encode_value(&SqlValue::UInt(0)), b"0".to_vec());
    assert_eq!(
        encode_value(&SqlValue::UInt(u64::MAX)),
        b"18446744073709551615".to_vec()
    );
}

#[test]
fn float_text_passes_through_unquoted() {
    assert_eq!(
        encode_value(&SqlValue::Float(b"3.5".to_vec())),
        b"3.5".to_vec()
    );
    assert_eq!(
        encode_value(&SqlValue::Double((2.25f64).to_string().into_bytes())),
        b"2.25".to_vec()
    );
    assert_eq!(
        encode_value(&SqlValue::Double((-0.5f64).to_string().into_bytes())),
        b"-0.5".to_vec()
    );
}

#[test]
fn plain_bytes_are_quoted() {
    assert_eq!(
        encode_value(&SqlValue::Bytes(b"hello".to_vec())),
        b"'hello'".to_vec()
    );
    assert_eq!(encode_value(&SqlValue::Bytes(Vec::new())), b"''".to_vec());
}

#[test]
fn backslash_then_quote_encodes_as_in_the_round_trip_contract() {
    // The byte sequence backslash, quote must become '\\\'' so that a
    // standards-conforming reader recovers exactly those two bytes.
    let v = SqlValue::Bytes(vec![b'\\', b'\'']);
    assert_eq!(encode_value(&v), b"'\\\\\\''".to_vec());
}

#[test]
fn all_six_delimiter_bytes_are_escaped() {
    let v = SqlValue::Bytes(vec![b'\\', b'\'', b'\n', b'\r', 0u8, 0x1au8]);
    assert_eq!(encode_value(&v), b"'\\\\\\'\\n\\r\\0\\Z'".to_vec());
}

#[test]
fn interleaved_backslashes_and_quotes_do_not_double_escape() {
    let v = SqlValue::Bytes(vec![b'\\', b'\\', b'\'', b'\\', b'\'', b'\'']);
    assert_eq!(
        encode_value(&v),
        b"'\\\\\\\\\\'\\\\\\'\\''".to_vec()
    );
}

#[test]
fn non_utf8_bytes_are_preserved() {
    let v = SqlValue::Bytes(vec![0xff, 0x00, 0xfe]);
    assert_eq!(encode_value(&v), vec![b'\'', 0xff, b'\\', b'0', 0xfe, b'\'']);
}

#[test]
fn datetime_encodes_zero_padded_with_microseconds() {
    let v = SqlValue::DateTime {
        year: 2024,
        month: 1,
        day: 5,
        hour: 9,
        minute: 3,
        second: 7,
        micros: 12,
    };
    assert_eq!(encode_value(&v), b"'2024-01-05 09:03:07.000012'".to_vec());
}

#[test]
fn datetime_keeps_wide_fields_unpadded() {
    let v = SqlValue::DateTime {
        year: 987,
        month: 12,
        day: 31,
        hour: 23,
        minute: 59,
        second: 59,
        micros: 999999,
    };
    assert_eq!(encode_value(&v), b"'0987-12-31 23:59:59.999999'".to_vec());
}

#[test]
fn time_folds_days_into_hours() {
    let v = SqlValue::Time {
        negative: false,
        days: 2,
        hours: 3,
        minutes: 4,
        seconds: 5,
        micros: 6,
    };
    assert_eq!(encode_value(&v), b"'51:04:05.000006'".to_vec());
}

#[test]
fn negative_time_carries_a_sign() {
    let v = SqlValue::Time {
        negative: true,
        days: 0,
        hours: 0,
        minutes: 0,
        seconds: 1,
        micros: 0,
    };
    assert_eq!(encode_value(&v), b"'-0:00:01.000000'".to_vec());
}

#[test]
fn escape_content_maps_each_byte() {
    assert_eq!(escape_content(b"ab"), b"ab".to_vec());
    assert_eq!(escape_content(b"a'b"), b"a\\'b".to_vec());
    assert_eq!(escape_content(b"\x1a"), b"\\Z".to_vec());
    assert_eq!(escape_content(b""), Vec::<u8>::new());
}

#[test]
fn encoded_literals_pass_the_splitter_whole() {
    // Values full of delimiter bytes still come out of the splitter as
    // exactly one statement, the literal itself.
    let tricky = vec![
        SqlValue::Bytes(b"a;b".to_vec()),
        SqlValue::Bytes(b"don't; stop".to_vec()),
        SqlValue::Bytes(b"-- not a comment; /* nor this */".to_vec()),
        SqlValue::Bytes(vec![b'\\', b'\'', b';']),
        SqlValue::DateTime {
            year: 2024,
            month: 6,
            day: 1,
            hour: 0,
            minute: 0,
            second: 0,
            micros: 0,
        },
        SqlValue::Time {
            negative: true,
            days: 1,
            hours: 2,
            minutes: 3,
            seconds: 4,
            micros: 5,
        },
        SqlValue::Int(-12),
        SqlValue::Null,
    ];
    for v in tricky {
        let lit = encode_value(&v);
        let stmts = split_sql_statements(&lit);
        assert_eq!(stmts, vec![lit.clone()]);
    }
}
