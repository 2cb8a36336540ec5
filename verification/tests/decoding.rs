use resp_codec::decode::{decode, DecodeOutcome, MalformedKind};
use resp_codec::{
    Array, BulkError, BulkString, Double, FrameError, RespEncode, RespFrame, RespMap, RespNull,
    RespNullArray, RespNullBulkString, RespSet, SimpleError, SimpleString,
};

fn simple(text: &[u8]) -> RespFrame {
    RespFrame::SimpleString(SimpleString::try_new(text.to_vec()).unwrap())
}

fn bulk(payload: &[u8]) -> RespFrame {
    RespFrame::BulkString(BulkString::new(payload.to_vec()))
}

#[test]
fn decode_simple_string() {
    assert_eq!(decode(b"+OK\r\n"), DecodeOutcome::Complete(simple(b"OK"), 5));
}

#[test]
fn decode_simple_error() {
    assert_eq!(
        decode(b"-Error message\r\n"),
        DecodeOutcome::Complete(
            RespFrame::SimpleError(SimpleError::try_new(b"Error message".to_vec()).unwrap()),
            16
        )
    );
}

#[test]
fn decode_integer_signs() {
    assert_eq!(
        decode(b":+123\r\n"),
        DecodeOutcome::Complete(RespFrame::Integer(123), 7)
    );
    assert_eq!(
        decode(b":-123\r\n"),
        DecodeOutcome::Complete(RespFrame::Integer(-123), 7)
    );
    assert_eq!(
        decode(b":42\r\n"),
        DecodeOutcome::Complete(RespFrame::Integer(42), 5)
    );
}

#[test]
fn decode_integer_extremes() {
    let min: i64 = i64::MIN;
    let max: i64 = i64::MAX;
    let enc_min = min.encode();
    let enc_max = max.encode();
    assert_eq!(
        decode(&enc_min),
        DecodeOutcome::Complete(RespFrame::Integer(i64::MIN), enc_min.len())
    );
    assert_eq!(
        decode(&enc_max),
        DecodeOutcome::Complete(RespFrame::Integer(i64::MAX), enc_max.len())
    );
    assert_eq!(
        decode(b":+9223372036854775808\r\n"),
        DecodeOutcome::Malformed(MalformedKind::BadInteger)
    );
}

#[test]
fn decode_null_variants_stay_distinct() {
    assert_eq!(
        decode(b"$-1\r\n"),
        DecodeOutcome::Complete(RespFrame::NullBulkString(RespNullBulkString), 5)
    );
    assert_eq!(
        decode(b"*-1\r\n"),
        DecodeOutcome::Complete(RespFrame::NullArray(RespNullArray), 5)
    );
    assert_eq!(
        decode(b"_\r\n"),
        DecodeOutcome::Complete(RespFrame::Null(RespNull), 3)
    );
}

#[test]
fn decode_boolean() {
    assert_eq!(
        decode(b"#t\r\n"),
        DecodeOutcome::Complete(RespFrame::Boolean(true), 4)
    );
    assert_eq!(
        decode(b"#f\r\n"),
        DecodeOutcome::Complete(RespFrame::Boolean(false), 4)
    );
    assert_eq!(
        decode(b"#x\r\n"),
        DecodeOutcome::Malformed(MalformedKind::BadBoolean)
    );
}

#[test]
fn decode_double_text() {
    assert_eq!(
        decode(b",123.456\r\n"),
        DecodeOutcome::Complete(
            RespFrame::Double(Double::try_new(b"123.456".to_vec()).unwrap()),
            10
        )
    );
    assert_eq!(
        decode(b",1.23456e8\r\n"),
        DecodeOutcome::Complete(
            RespFrame::Double(Double::try_new(b"1.23456e8".to_vec()).unwrap()),
            12
        )
    );
    assert_eq!(
        decode(b",abc\r\n"),
        DecodeOutcome::Malformed(MalformedKind::BadDouble)
    );
}

#[test]
fn decode_nested_aggregate_round_trip() {
    let wire = b"*2\r\n$3\r\nget\r\n$5\r\nhello\r\n";
    let expected = RespFrame::Array(Array::new(vec![bulk(b"get"), bulk(b"hello")]));
    assert_eq!(decode(wire), DecodeOutcome::Complete(expected, wire.len()));
}

#[test]
fn decode_consumes_one_frame_of_a_stream() {
    assert_eq!(
        decode(b"+OK\r\n:+1\r\n"),
        DecodeOutcome::Complete(simple(b"OK"), 5)
    );
}

#[test]
fn truncated_encodings_are_incomplete() {
    let wires: Vec<Vec<u8>> = vec![
        b"+OK\r\n".to_vec(),
        b":-123\r\n".to_vec(),
        b"$5\r\nhello\r\n".to_vec(),
        b"*2\r\n$3\r\nget\r\n$5\r\nhello\r\n".to_vec(),
        b"%1\r\n+k\r\n:+1\r\n".to_vec(),
        b"~1\r\n#t\r\n".to_vec(),
        b"_\r\n".to_vec(),
        b",1.5e3\r\n".to_vec(),
        b"!2\r\nab\r\n".to_vec(),
    ];
    for wire in wires {
        for k in 0..wire.len() {
            assert_eq!(decode(&wire[..k]), DecodeOutcome::Incomplete);
        }
    }
}

#[test]
fn malformed_inputs_are_rejected() {
    assert_eq!(
        decode(b"@foo\r\n"),
        DecodeOutcome::Malformed(MalformedKind::UnknownTag)
    );
    assert_eq!(
        decode(b"$abc\r\n"),
        DecodeOutcome::Malformed(MalformedKind::BadLength)
    );
    assert_eq!(
        decode(b"$-2\r\n"),
        DecodeOutcome::Malformed(MalformedKind::NegativeLength)
    );
    assert_eq!(
        decode(b"!-1\r\n"),
        DecodeOutcome::Malformed(MalformedKind::NegativeLength)
    );
    assert_eq!(
        decode(b":12a\r\n"),
        DecodeOutcome::Malformed(MalformedKind::BadInteger)
    );
    assert_eq!(
        decode(b"_x\r\n"),
        DecodeOutcome::Malformed(MalformedKind::BadNull)
    );
    assert_eq!(
        decode(b"+ab\ncd\r\n"),
        DecodeOutcome::Malformed(MalformedKind::MissingCrlf)
    );
    assert_eq!(
        decode(b"$600000000\r\n"),
        DecodeOutcome::Malformed(MalformedKind::LengthLimit)
    );
    assert_eq!(
        decode(b"%1\r\n:+1\r\n+v\r\n"),
        DecodeOutcome::Malformed(MalformedKind::BadMapKey)
    );
    let mut bad_utf8: Vec<u8> = b"!2\r\n".to_vec();
    bad_utf8.push(0xff);
    bad_utf8.push(0xfe);
    bad_utf8.extend_from_slice(b"\r\n");
    assert_eq!(
        decode(&bad_utf8),
        DecodeOutcome::Malformed(MalformedKind::NotUtf8)
    );
}

#[test]
fn nesting_beyond_the_depth_limit_is_rejected() {
    let mut wire: Vec<u8> = Vec::new();
    for _ in 0..65 {
        wire.extend_from_slice(b"*1\r\n");
    }
    wire.extend_from_slice(b"#t\r\n");
    assert_eq!(decode(&wire), DecodeOutcome::Malformed(MalformedKind::DepthLimit));
}

#[test]
fn map_insert_order_does_not_change_the_bytes() {
    let mut forward = RespMap::new();
    forward.insert(b"key1".to_vec(), bulk(b"value1"));
    forward.insert(b"key2".to_vec(), bulk(b"value2"));
    let mut backward = RespMap::new();
    backward.insert(b"key2".to_vec(), bulk(b"value2"));
    backward.insert(b"key1".to_vec(), bulk(b"value1"));
    assert_eq!(forward.encode(), backward.encode());
}

#[test]
fn set_insert_order_does_not_change_the_bytes() {
    let mut forward = RespSet::new();
    forward.insert(bulk(b"value1"));
    forward.insert(bulk(b"value2"));
    let mut backward = RespSet::new();
    backward.insert(bulk(b"value2"));
    backward.insert(bulk(b"value1"));
    assert_eq!(forward.encode(), backward.encode());
    let mut doubled = RespSet::new();
    doubled.insert(bulk(b"value1"));
    doubled.insert(bulk(b"value2"));
    doubled.insert(bulk(b"value1"));
    assert_eq!(doubled.encode(), b"~2\r\n$6\r\nvalue1\r\n$6\r\nvalue2\r\n");
}

#[test]
fn map_decode_sorts_and_last_duplicate_wins() {
    let outcome = decode(b"%3\r\n+b\r\n:+1\r\n+a\r\n:+2\r\n+b\r\n:+9\r\n");
    let mut expected = RespMap::new();
    expected.insert(b"b".to_vec(), RespFrame::Integer(1));
    expected.insert(b"a".to_vec(), RespFrame::Integer(2));
    expected.insert(b"b".to_vec(), RespFrame::Integer(9));
    assert_eq!(
        outcome,
        DecodeOutcome::Complete(RespFrame::MapFrame(expected), 31)
    );
}

#[test]
fn encode_decode_round_trip_all_variants() {
    let mut map = RespMap::new();
    map.insert(b"k".to_vec(), RespFrame::Boolean(false));
    let mut set = RespSet::new();
    set.insert(RespFrame::Integer(7));
    set.insert(bulk(b"x"));
    let frames: Vec<RespFrame> = vec![
        simple(b"OK"),
        RespFrame::SimpleError(SimpleError::try_new(b"oops".to_vec()).unwrap()),
        RespFrame::Integer(0),
        bulk(b""),
        RespFrame::Array(Array::new(vec![])),
        RespFrame::Null(RespNull),
        RespFrame::NullArray(RespNullArray),
        RespFrame::NullBulkString(RespNullBulkString),
        RespFrame::Boolean(true),
        RespFrame::Double(Double::try_new(b"-0.5e-3".to_vec()).unwrap()),
        RespFrame::BulkError(BulkError::try_new(b"err".to_vec()).unwrap()),
        RespFrame::MapFrame(map),
        RespFrame::SetFrame(set),
    ];
    for frame in frames {
        let wire = frame.encode();
        match decode(&wire) {
            DecodeOutcome::Complete(back, used) => {
                assert_eq!(used, wire.len());
                assert_eq!(back.encode(), wire);
            },
            other => panic!("expected a complete frame, got {:?}", other),
        }
    }
}

#[test]
fn construction_rejects_bad_payloads() {
    assert_eq!(
        SimpleString::try_new(b"a\r\nb".to_vec()),
        Err(FrameError::IllegalLineByte)
    );
    assert_eq!(
        SimpleError::try_new(b"a\nb".to_vec()),
        Err(FrameError::IllegalLineByte)
    );
    assert_eq!(
        Double::try_new(b"abc".to_vec()),
        Err(FrameError::BadDoubleText)
    );
    let mut bad: Vec<u8> = Vec::new();
    bad.push(0xff);
    assert_eq!(BulkError::try_new(bad), Err(FrameError::NotUtf8));
}
