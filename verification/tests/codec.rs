use resp_store::decode::{parse_resp_value, ParseError};
use resp_store::encode::encode_resp_value;
use resp_store::{RespDataType, RespReader, RespReaderError, RespValue};

use std::collections::hash_map::DefaultHasher;
use std::hash::{Hash, Hasher};

fn decode_all(bytes: &[u8]) -> RespValue {
    let (rest, v) = parse_resp_value(bytes).expect("decode failed");
    assert!(rest.is_empty(), "not all bytes consumed");
    v
}

#[test]
fn test_valid_parse_resp_simple_string1() {
    let input = b"+Test\r\n";

    assert_eq!(
        (&b""[..], RespValue::SimpleString(b"Test".to_vec())),
        parse_resp_value(input).unwrap()
    );
}

#[test]
fn test_invalid_parse_resp_simple_string() {
    let inputs: Vec<&[u8]> = vec![b"+Test", b"+Test\r", b"+\r", b"+\r", b"Test\r\n"];

    for input in inputs {
        assert!(parse_resp_value(input).is_err(), "Failed on {:?}", input);
    }
}

#[test]
fn decode_scalars() {
    assert_eq!(decode_all(b"_\r\n"), RespValue::Null);
    assert_eq!(decode_all(b"#t\r\n"), RespValue::Boolean(true));
    assert_eq!(decode_all(b"#f\r\n"), RespValue::Boolean(false));
    assert_eq!(decode_all(b":42\r\n"), RespValue::Integer(42));
    assert_eq!(decode_all(b":+5\r\n"), RespValue::Integer(5));
    assert_eq!(decode_all(b":-42\r\n"), RespValue::Integer(-42));
    assert_eq!(
        decode_all(b":-9223372036854775808\r\n"),
        RespValue::Integer(i64::MIN)
    );
    assert_eq!(
        decode_all(b":9223372036854775807\r\n"),
        RespValue::Integer(i64::MAX)
    );
    assert_eq!(
        decode_all(b",3.14e-2\r\n"),
        RespValue::Double(b"3.14e-2".to_vec())
    );
    assert_eq!(
        decode_all(b"(+123\r\n"),
        RespValue::BigNumber(b"+123".to_vec())
    );
    assert_eq!(
        decode_all(b"$5\r\nhello\r\n"),
        RespValue::BulkString(b"hello".to_vec())
    );
    assert_eq!(decode_all(b"$0\r\n\r\n"), RespValue::BulkString(b"".to_vec()));
    assert_eq!(
        decode_all(b"!5\r\nwhoop\r\n"),
        RespValue::BulkError(b"whoop".to_vec())
    );
    assert_eq!(
        decode_all(b"=9\r\ntxt:hello\r\n"),
        RespValue::VerbatimString(b"txt".to_vec(), b"hello".to_vec())
    );
    assert_eq!(
        decode_all(b"-ERR bad\r\n"),
        RespValue::SimpleError(b"ERR bad".to_vec())
    );
}

#[test]
fn decode_bulk_string_with_embedded_crlf() {
    assert_eq!(
        decode_all(b"$6\r\nab\r\ncd\r\n"),
        RespValue::BulkString(b"ab\r\ncd".to_vec())
    );
}

#[test]
fn decode_aggregates() {
    assert_eq!(
        decode_all(b"*2\r\n:1\r\n+ok\r\n"),
        RespValue::Array(vec![
            RespValue::Integer(1),
            RespValue::SimpleString(b"ok".to_vec()),
        ])
    );
    assert_eq!(
        decode_all(b">1\r\n:7\r\n"),
        RespValue::Push(vec![RespValue::Integer(7)])
    );
    assert_eq!(decode_all(b"*0\r\n"), RespValue::Array(vec![]));
    assert_eq!(
        decode_all(b"*1\r\n*1\r\n:9\r\n"),
        RespValue::Array(vec![RespValue::Array(vec![RespValue::Integer(9)])])
    );
}

#[test]
fn decode_set_merges_structural_duplicates() {
    assert_eq!(
        decode_all(b"~3\r\n:1\r\n:2\r\n:1\r\n"),
        RespValue::ValueSet(vec![RespValue::Integer(1), RespValue::Integer(2)])
    );
}

#[test]
fn decode_map_replaces_duplicate_keys_in_place() {
    assert_eq!(
        decode_all(b"%3\r\n+a\r\n:1\r\n+b\r\n:2\r\n+a\r\n:3\r\n"),
        RespValue::Mapping(vec![
            (
                RespValue::SimpleString(b"a".to_vec()),
                RespValue::Integer(3)
            ),
            (
                RespValue::SimpleString(b"b".to_vec()),
                RespValue::Integer(2)
            ),
        ])
    );
}

#[test]
fn encode_scalars_exact_bytes() {
    assert_eq!(encode_resp_value(&RespValue::Null), b"_\r\n".to_vec());
    assert_eq!(
        encode_resp_value(&RespValue::Boolean(true)),
        b"#t\r\n".to_vec()
    );
    assert_eq!(
        encode_resp_value(&RespValue::Boolean(false)),
        b"#f\r\n".to_vec()
    );
    assert_eq!(
        encode_resp_value(&RespValue::Integer(0)),
        b":0\r\n".to_vec()
    );
    assert_eq!(
        encode_resp_value(&RespValue::Integer(-42)),
        b":-42\r\n".to_vec()
    );
    assert_eq!(
        encode_resp_value(&RespValue::Integer(i64::MIN)),
        b":-9223372036854775808\r\n".to_vec()
    );
    assert_eq!(
        encode_resp_value(&RespValue::BulkString(b"hello world".to_vec())),
        b"$11\r\nhello world\r\n".to_vec()
    );
    assert_eq!(
        encode_resp_value(&RespValue::VerbatimString(
            b"txt".to_vec(),
            b"hello".to_vec()
        )),
        b"=9\r\ntxt:hello\r\n".to_vec()
    );
    assert_eq!(
        encode_resp_value(&RespValue::Double(b"3.5e8".to_vec())),
        b",3.5e8\r\n".to_vec()
    );
}

#[test]
fn round_trip_nested_value() {
    let v = RespValue::Array(vec![
        RespValue::Null,
        RespValue::Boolean(false),
        RespValue::Integer(-7),
        RespValue::Double(b"1.25".to_vec()),
        RespValue::BigNumber(b"-99999999999999999999".to_vec()),
        RespValue::SimpleString(b"ok".to_vec()),
        RespValue::SimpleError(b"ERR".to_vec()),
        RespValue::BulkString(b"a\r\nb".to_vec()),
        RespValue::BulkError(b"".to_vec()),
        RespValue::VerbatimString(b"mkd".to_vec(), b"*bold*".to_vec()),
        RespValue::Push(vec![RespValue::Integer(1)]),
    ]);
    let bytes = encode_resp_value(&v);
    let decoded = decode_all(&bytes);
    assert_eq!(decoded, v);
}

#[test]
fn round_trip_set_and_map() {
    let v = RespValue::Mapping(vec![
        (
            RespValue::SimpleString(b"k1".to_vec()),
            RespValue::ValueSet(vec![RespValue::Integer(1), RespValue::Integer(2)]),
        ),
        (
            RespValue::SimpleString(b"k2".to_vec()),
            RespValue::Null,
        ),
    ]);
    let bytes = encode_resp_value(&v);
    assert_eq!(decode_all(&bytes), v);
}

#[test]
fn incremental_delivery_one_byte_at_a_time() {
    let v = RespValue::Array(vec![
        RespValue::BulkString(b"PING".to_vec()),
        RespValue::Integer(123),
        RespValue::Array(vec![RespValue::SimpleString(b"deep".to_vec())]),
    ]);
    let bytes = encode_resp_value(&v);

    let whole = decode_all(&bytes);

    let mut reader = RespReader::new();
    for (i, b) in bytes.iter().enumerate() {
        if i + 1 < bytes.len() {
            reader.feed(&[*b]);
            assert_eq!(
                reader.next().unwrap_err(),
                RespReaderError::BufferFinished,
                "decoder settled early at byte {}",
                i
            );
        } else {
            reader.feed(&[*b]);
        }
    }
    let split = reader.next().unwrap();
    assert_eq!(split, whole);
    assert_eq!(split, v);
}

#[test]
fn length_fidelity_rejects_mismatched_length() {
    assert_eq!(
        parse_resp_value(b"$3\r\nabcd\r\n").unwrap_err(),
        ParseError::Protocol(RespReaderError::MissingNewline)
    );
    assert_eq!(
        parse_resp_value(b"$5\r\nab\r\nxy\r\n").unwrap_err(),
        ParseError::Protocol(RespReaderError::MissingNewline)
    );
}

#[test]
fn length_overflow_is_reported_not_wrapped() {
    assert_eq!(
        parse_resp_value(b"$99999999999999999999\r\nx\r\n").unwrap_err(),
        ParseError::Protocol(RespReaderError::LengthOverflowed)
    );
    assert_eq!(
        parse_resp_value(b":99999999999999999999\r\n").unwrap_err(),
        ParseError::Protocol(RespReaderError::LengthOverflowed)
    );
}

#[test]
fn unknown_tag_resyncs_past_the_line() {
    let mut reader = RespReader::new();
    reader.feed(b"?foo\r\n:5\r\n");
    assert_eq!(
        reader.next().unwrap_err(),
        RespReaderError::UnknownDataType('?')
    );
    // the stream is positioned after the next CRLF, so decoding resumes
    assert_eq!(reader.next().unwrap(), RespValue::Integer(5));
}

#[test]
fn unknown_tag_waits_for_the_line_to_finish() {
    let mut reader = RespReader::new();
    reader.feed(b"?fo");
    assert_eq!(reader.next().unwrap_err(), RespReaderError::BufferFinished);
    reader.feed(b"o\r\n");
    assert_eq!(
        reader.next().unwrap_err(),
        RespReaderError::UnknownDataType('?')
    );
}

#[test]
fn non_utf8_text_is_rejected() {
    assert_eq!(
        parse_resp_value(b"+a\xffb\r\n").unwrap_err(),
        ParseError::Protocol(RespReaderError::NonUtf8String)
    );
    assert_eq!(
        parse_resp_value(b"$2\r\n\xc3\x28\r\n").unwrap_err(),
        ParseError::Protocol(RespReaderError::NonUtf8String)
    );
    // well-formed multi-byte text is accepted
    assert_eq!(
        decode_all("$6\r\nh\u{e9}llo\r\n".as_bytes()),
        RespValue::BulkString("h\u{e9}llo".as_bytes().to_vec())
    );
}

#[test]
fn invalid_chars_in_tokens_are_reported() {
    assert_eq!(
        parse_resp_value(b"$a\r\n").unwrap_err(),
        ParseError::Protocol(RespReaderError::InvalidCharInLength('a'))
    );
    assert_eq!(
        parse_resp_value(b":12x\r\n").unwrap_err(),
        ParseError::Protocol(RespReaderError::InvalidCharInLength('x'))
    );
    assert_eq!(
        parse_resp_value(b"#x\r\n").unwrap_err(),
        ParseError::Protocol(RespReaderError::InvalidCharInLength('x'))
    );
    assert_eq!(
        parse_resp_value(b",abc\r\n").unwrap_err(),
        ParseError::Protocol(RespReaderError::InvalidCharInLength('a'))
    );
}

#[test]
fn missing_newline_in_null_and_boolean() {
    assert_eq!(
        parse_resp_value(b"_x\r\n").unwrap_err(),
        ParseError::Protocol(RespReaderError::MissingNewline)
    );
    assert_eq!(
        parse_resp_value(b"#tx\r\n").unwrap_err(),
        ParseError::Protocol(RespReaderError::MissingNewline)
    );
}

#[test]
fn incomplete_is_distinct_from_malformed() {
    let err = parse_resp_value(b"$5\r\nab").unwrap_err();
    assert!(err.incomplete());
    assert_eq!(err, ParseError::Incomplete);
    let err = parse_resp_value(b"*2\r\n:1\r\n").unwrap_err();
    assert!(err.incomplete());
    let err = parse_resp_value(b"$3\r\nabcd\r\n").unwrap_err();
    assert!(!err.incomplete());
}

#[test]
fn double_equality_and_hashing_follow_the_payload_bits() {
    let a = RespValue::Double(b"1.5e3".to_vec());
    let b = RespValue::Double(b"1.5e3".to_vec());
    let c = RespValue::Double(b"1.50e3".to_vec());
    assert!(a == b);
    assert!(a != c);

    let mut ha = DefaultHasher::new();
    a.hash(&mut ha);
    let mut hb = DefaultHasher::new();
    b.hash(&mut hb);
    assert_eq!(ha.finish(), hb.finish());

    // a double and an integer with the same numeric value are never equal
    assert!(RespValue::Double(b"5".to_vec()) != RespValue::Integer(5));
}

#[test]
fn cross_variant_values_never_compare_equal() {
    assert!(RespValue::SimpleString(b"x".to_vec()) != RespValue::BulkString(b"x".to_vec()));
    assert!(RespValue::SimpleError(b"x".to_vec()) != RespValue::BulkError(b"x".to_vec()));
    assert!(RespValue::Null != RespValue::Boolean(false));
    assert!(RespValue::Array(vec![]) != RespValue::Push(vec![]));
}

#[test]
fn data_type_tag_table() {
    assert_eq!(RespDataType::try_from(b'+'), Some(RespDataType::SimpleString));
    assert_eq!(RespDataType::try_from(b'%'), Some(RespDataType::Mapping));
    assert_eq!(RespDataType::try_from(b'~'), Some(RespDataType::ValueSet));
    assert_eq!(RespDataType::try_from(b'?'), None);
    for dt in [
        RespDataType::SimpleString,
        RespDataType::SimpleError,
        RespDataType::Integer,
        RespDataType::BulkString,
        RespDataType::Array,
        RespDataType::Null,
        RespDataType::Boolean,
        RespDataType::Double,
        RespDataType::BigNumber,
        RespDataType::BulkError,
        RespDataType::VerbatimString,
        RespDataType::Mapping,
        RespDataType::ValueSet,
        RespDataType::Push,
    ] {
        assert_eq!(RespDataType::try_from(dt.tag_byte()), Some(dt));
    }
}

#[test]
fn reader_checkpoint_rolls_back_speculative_reads() {
    let mut reader = RespReader::new();
    reader.feed(b":1\r\n:2\r\n");
    let mark = reader.checkpoint();
    assert_eq!(reader.next().unwrap(), RespValue::Integer(1));
    assert_eq!(reader.next().unwrap(), RespValue::Integer(2));
    reader.rollback(mark);
    // nothing was lost: the same values decode again
    assert_eq!(reader.next().unwrap(), RespValue::Integer(1));
    assert_eq!(reader.next().unwrap(), RespValue::Integer(2));
}

#[test]
fn verbatim_string_split_is_checked() {
    // the declared length is too short to hold a format code and separator
    assert_eq!(
        parse_resp_value(b"=2\r\nab\r\n").unwrap_err(),
        ParseError::Protocol(RespReaderError::MissingNewline)
    );
    // the separator must be a colon
    assert_eq!(
        parse_resp_value(b"=9\r\ntxt;hello\r\n").unwrap_err(),
        ParseError::Protocol(RespReaderError::InvalidCharInLength(';'))
    );
}

#[test]
fn reader_decodes_several_values_in_sequence() {
    let mut reader = RespReader::new();
    reader.feed(b"+one\r\n$3\r\ntwo\r\n*1\r\n#t\r\n");
    assert_eq!(
        reader.next().unwrap(),
        RespValue::SimpleString(b"one".to_vec())
    );
    assert_eq!(
        reader.next().unwrap(),
        RespValue::BulkString(b"two".to_vec())
    );
    assert_eq!(
        reader.next().unwrap(),
        RespValue::Array(vec![RespValue::Boolean(true)])
    );
    assert_eq!(reader.next().unwrap_err(), RespReaderError::BufferFinished);
}

#[test]
fn well_formedness_gates_the_round_trip() {
    // values in the round-trip guarantee's domain
    assert!(RespValue::Double(b"-1.25e+10".to_vec()).is_well_formed());
    assert!(RespValue::BigNumber(b"+42".to_vec()).is_well_formed());
    assert!(RespValue::SimpleString(b"ok".to_vec()).is_well_formed());
    assert!(RespValue::VerbatimString(b"txt".to_vec(), b"x".to_vec()).is_well_formed());
    assert!(
        RespValue::ValueSet(vec![RespValue::Integer(1), RespValue::Integer(2)]).is_well_formed()
    );

    // and values outside it
    assert!(!RespValue::Double(b"abc".to_vec()).is_well_formed());
    assert!(!RespValue::Double(b"1.".to_vec()).is_well_formed());
    assert!(!RespValue::BigNumber(b"".to_vec()).is_well_formed());
    assert!(!RespValue::SimpleString(b"a\r\nb".to_vec()).is_well_formed());
    assert!(!RespValue::BulkString(vec![0xff]).is_well_formed());
    assert!(!RespValue::VerbatimString(b"tx".to_vec(), b"x".to_vec()).is_well_formed());
    assert!(
        !RespValue::ValueSet(vec![RespValue::Integer(1), RespValue::Integer(1)]).is_well_formed()
    );
    assert!(!RespValue::Mapping(vec![
        (RespValue::Null, RespValue::Integer(1)),
        (RespValue::Null, RespValue::Integer(2)),
    ])
    .is_well_formed());
}

#[test]
fn reader_reports_clean_end_at_value_boundary() {
    let mut reader = RespReader::new();
    reader.feed(b":1\r\n");
    reader.close();
    assert_eq!(reader.next().unwrap(), RespValue::Integer(1));
    assert_eq!(reader.next().unwrap_err(), RespReaderError::BufferFinished);
}
