use resp_server::codec::{decode, encode, Decoded, ProtocolError};
use resp_server::value::Value;

fn bulk(s: &[u8]) -> Value {
    Value::BulkString(s.to_vec())
}

fn round_trip(v: &Value) -> Vec<u8> {
    let bytes = encode(v);
    match decode(&bytes) {
        Decoded::Complete(back, used) => {
            assert_eq!(used, bytes.len());
            let again = encode(&back);
            assert_eq!(again, bytes);
            again
        }
        other => panic!("no value decoded: {:?}", other),
    }
}

#[test]
fn encodes_array_of_bulk_strings() {
    let v = Value::Array(vec![bulk(b"echo"), bulk(b"hey")]);
    assert_eq!(encode(&v), b"*2\r\n$4\r\necho\r\n$3\r\nhey\r\n".to_vec());
}

#[test]
fn encodes_simple_error_and_empty_array() {
    assert_eq!(encode(&Value::SimpleString(b"PONG".to_vec())), b"+PONG\r\n".to_vec());
    assert_eq!(
        encode(&Value::Error(b"ERR unknown command".to_vec())),
        b"-ERR unknown command\r\n".to_vec()
    );
    assert_eq!(encode(&Value::Array(vec![])), b"*0\r\n".to_vec());
}

#[test]
fn encodes_integers_and_null() {
    assert_eq!(encode(&Value::Integer(-42)), b":-42\r\n".to_vec());
    assert_eq!(encode(&Value::Integer(0)), b":0\r\n".to_vec());
    assert_eq!(
        encode(&Value::Integer(i64::MIN)),
        b":-9223372036854775808\r\n".to_vec()
    );
    assert_eq!(encode(&Value::NullBulkString), b"$-1\r\n".to_vec());
    assert_eq!(encode(&bulk(b"")), b"$0\r\n\r\n".to_vec());
}

#[test]
fn round_trips_values() {
    round_trip(&Value::Integer(i64::MAX));
    round_trip(&Value::Integer(i64::MIN));
    round_trip(&Value::NullBulkString);
    round_trip(&bulk(&[0, 13, 10, 255, 36]));
    round_trip(&Value::Error(b"ERR x".to_vec()));
    round_trip(&Value::SimpleString("h\u{e9}llo \u{1F600}".as_bytes().to_vec()));
    round_trip(&Value::Array(vec![
        Value::Array(vec![bulk(b"a"), Value::Integer(7)]),
        Value::SimpleString(b"ok".to_vec()),
        Value::Array(vec![]),
    ]));
}

#[test]
fn decodes_each_type_byte() {
    assert!(matches!(decode(b"*0\r\n"), Decoded::Complete(Value::Array(ref a), 4) if a.is_empty()));
    assert!(matches!(decode(b"+OK\r\n"), Decoded::Complete(Value::SimpleString(ref t), 5) if t == b"OK"));
    assert!(matches!(decode(b"-ERR\r\n"), Decoded::Complete(Value::Error(ref t), 6) if t == b"ERR"));
    assert!(matches!(decode(b":-17\r\n"), Decoded::Complete(Value::Integer(-17), 6)));
    assert!(matches!(decode(b"$2\r\nhi\r\n"), Decoded::Complete(Value::BulkString(ref d), 8) if d == b"hi"));
    assert!(matches!(decode(b"$-1\r\n"), Decoded::Complete(Value::NullBulkString, 5)));
}

#[test]
fn leaves_following_bytes_alone() {
    assert!(matches!(decode(b"+a\r\n+b\r\n"), Decoded::Complete(_, 4)));
}

#[test]
fn reports_each_protocol_error() {
    assert!(matches!(decode(b"?x\r\n"), Decoded::Invalid(ProtocolError::UnknownType)));
    assert!(matches!(decode(b"$abc\r\n"), Decoded::Invalid(ProtocolError::BadNumber)));
    assert!(matches!(decode(b":99999999999999999999\r\n"), Decoded::Invalid(ProtocolError::BadNumber)));
    assert!(matches!(decode(b"*-2\r\n"), Decoded::Invalid(ProtocolError::BadLength)));
    assert!(matches!(decode(b"+a\rb\r\n"), Decoded::Invalid(ProtocolError::BadTerminator)));
    assert!(matches!(decode(b"$2\r\nhiX\r\n"), Decoded::Invalid(ProtocolError::BadTerminator)));
    assert!(matches!(decode(b"+\xff\r\n"), Decoded::Invalid(ProtocolError::BadText)));
    assert!(matches!(decode(b"-\xed\xa0\x80\r\n"), Decoded::Invalid(ProtocolError::BadText)));
    assert!(matches!(decode(b"+\xc0\xaf\r\n"), Decoded::Invalid(ProtocolError::BadText)));
    assert!(matches!(decode(b"$600000000\r\n"), Decoded::Invalid(ProtocolError::TooLarge)));
    assert!(matches!(decode(b"$99999999999999999999\r\n"), Decoded::Invalid(ProtocolError::TooLarge)));
    assert!(matches!(decode(b"*99999999999999999999\r\n"), Decoded::Invalid(ProtocolError::TooLarge)));
    assert!(matches!(decode(b"*-99999999999999999999\r\n"), Decoded::Invalid(ProtocolError::BadLength)));
    assert!(matches!(decode(b"$-99999999999999999999\r\n"), Decoded::Complete(Value::NullBulkString, 24)));
    assert!(matches!(decode(b":-99999999999999999999\r\n"), Decoded::Invalid(ProtocolError::BadNumber)));
    assert!(matches!(decode(b"$9x\r\n"), Decoded::Invalid(ProtocolError::BadNumber)));
    assert!(matches!(decode(b"*2000000\r\n"), Decoded::Invalid(ProtocolError::TooLarge)));
    let mut deep: Vec<u8> = Vec::new();
    for _ in 0..40 {
        deep.extend_from_slice(b"*1\r\n");
    }
    deep.extend_from_slice(b":1\r\n");
    assert!(matches!(decode(&deep), Decoded::Invalid(ProtocolError::TooDeep)));
}

#[test]
fn short_bulk_string_needs_more_data() {
    assert!(matches!(decode(b"$5\r\nab"), Decoded::Incomplete));
    assert!(matches!(decode(b"$5\r\nabcde"), Decoded::Incomplete));
    assert!(matches!(decode(b"$5\r\nabcde\r"), Decoded::Incomplete));
    assert!(matches!(decode(b"$5\r\nabcde\r\n"), Decoded::Complete(_, 11)));
    assert!(matches!(decode(b""), Decoded::Incomplete));
    assert!(matches!(decode(b"*2\r\n$1\r\na\r\n"), Decoded::Incomplete));
}

#[test]
fn every_prefix_of_an_encoding_is_incomplete() {
    let v = Value::Array(vec![bulk(b"echo"), bulk(b"hey"), Value::Integer(-3)]);
    let bytes = encode(&v);
    for k in 0..bytes.len() {
        assert!(matches!(decode(&bytes[..k]), Decoded::Incomplete), "prefix {}", k);
    }
}

#[test]
fn prefixes_of_a_binary_frame_are_incomplete() {
    let frame: &[u8] = b"*1\r\n$4\r\n\x00\r\n\xff\r\n";
    assert!(matches!(decode(frame), Decoded::Complete(_, 14)));
    for k in 0..frame.len() {
        assert!(matches!(decode(&frame[..k]), Decoded::Incomplete), "prefix {}", k);
    }
}
