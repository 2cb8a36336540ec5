use resp_codec::{
    Array, BulkError, BulkString, Double, RespEncode, RespFrame, RespMap, RespNull,
    RespNullArray, RespNullBulkString, RespSet, SimpleError, SimpleString,
};

#[test]
fn test_simple_string_encode() {
    let frame = SimpleString::try_new(b"OK".to_vec()).unwrap();
    assert_eq!(frame.encode(), b"+OK\r\n");
}

#[test]
fn test_simple_error_encode() {
    let frame = SimpleError::try_new(b"Error message".to_vec()).unwrap();
    assert_eq!(frame.encode(), b"-Error message\r\n");
}

#[test]
fn test_integer_encode() {
    let frame: i64 = 123;
    assert_eq!(frame.encode(), b":+123\r\n");

    let frame: i64 = -123;
    assert_eq!(frame.encode(), b":-123\r\n");
}

#[test]
fn test_bulk_string_encode() {
    let frame = BulkString::new(b"hello".to_vec());
    assert_eq!(frame.encode(), b"$5\r\nhello\r\n");
}

#[test]
fn test_bulk_error_encode() {
    let frame = BulkError::try_new(b"Error message".to_vec()).unwrap();
    assert_eq!(frame.encode(), b"!13\r\nError message\r\n");
}

#[test]
fn test_array_encode() {
    let frame = Array::new(vec![
        RespFrame::BulkString(BulkString::new(b"get".to_vec())),
        RespFrame::BulkString(BulkString::new(b"hello".to_vec())),
    ]);
    assert_eq!(frame.encode(), b"*2\r\n$3\r\nget\r\n$5\r\nhello\r\n");
}

#[test]
fn test_null_bulk_string_encode() {
    let frame = RespNullBulkString;
    assert_eq!(frame.encode(), b"$-1\r\n");
}

#[test]
fn test_null_array_encode() {
    let frame = RespNullArray;
    assert_eq!(frame.encode(), b"*-1\r\n");
}

#[test]
fn test_null_encode() {
    let frame = RespNull;
    assert_eq!(frame.encode(), b"_\r\n");
}

#[test]
fn test_boolean_encode() {
    let frame = true;
    assert_eq!(frame.encode(), b"#t\r\n");

    let frame = false;
    assert_eq!(frame.encode(), b"#f\r\n");
}

#[test]
fn test_double_encode() {
    let frame = Double::try_new(format!("{}", 123.456).into_bytes()).unwrap();
    assert_eq!(frame.encode(), b",123.456\r\n");

    let frame = Double::try_new(format!("{}", 123.0).into_bytes()).unwrap();
    assert_eq!(frame.encode(), b",123\r\n");

    let frame = Double::try_new(format!("{:e}", 1.23456e+8).into_bytes()).unwrap();
    assert_eq!(frame.encode(), b",1.23456e8\r\n");

    let frame = Double::try_new(format!("{:e}", 1.23456e-9).into_bytes()).unwrap();
    assert_eq!(frame.encode(), b",1.23456e-9\r\n");
}

#[test]
fn test_map_encode() {
    let mut map = RespMap::new();
    map.insert(
        b"key1".to_vec(),
        RespFrame::BulkString(BulkString::new(b"value1".to_vec())),
    );
    map.insert(
        b"key2".to_vec(),
        RespFrame::BulkString(BulkString::new(b"value2".to_vec())),
    );
    let frame = map;
    assert_eq!(
        frame.encode(),
        b"%2\r\n+key1\r\n$6\r\nvalue1\r\n+key2\r\n$6\r\nvalue2\r\n"
    );
}

#[test]
fn test_set_encode() {
    let mut set = RespSet::new();
    set.insert(RespFrame::BulkString(BulkString::new(b"value1".to_vec())));
    set.insert(RespFrame::BulkString(BulkString::new(b"value2".to_vec())));
    let frame = set;
    let encoded = frame.encode();
    assert_eq!(encoded, b"~2\r\n$6\r\nvalue1\r\n$6\r\nvalue2\r\n");
}
