use bytes::BytesMut;
use miniredis::resp::RespError;
use miniredis::resp::RespValue;

fn decode_whole(bytes: &[u8]) -> Result<RespValue, RespError> {
    let mut buf = BytesMut::from(bytes);
    RespValue::try_from_bytes(&mut buf)
}

fn assert_round_trips(v: RespValue) {
    let encoded = v.encode();
    let mut buf = BytesMut::from(&encoded[..]);
    let decoded = RespValue::try_from_bytes(&mut buf).expect("whole encoding must decode");
    assert_eq!(buf.len(), 0, "the decoder must consume exactly the encoding");
    assert_eq!(decoded.encode(), encoded);
}

#[test]
fn encode_simple_exact() {
    assert_eq!(RespValue::new_simple(b"OK".to_vec()).encode(), b"+OK\r\n".to_vec());
}

#[test]
fn encode_error_exact() {
    assert_eq!(RespValue::new_error(b"oops".to_vec()).encode(), b"-oops\r\n".to_vec());
}

#[test]
fn encode_integer_exact() {
    assert_eq!(RespValue::new_integer(1234).encode(), b":1234\r\n".to_vec());
    assert_eq!(RespValue::new_integer(0).encode(), b":0\r\n".to_vec());
    assert_eq!(
        RespValue::new_integer(u64::MAX).encode(),
        b":18446744073709551615\r\n".to_vec()
    );
}

#[test]
fn encode_bulk_exact() {
    assert_eq!(RespValue::new_bulk(b"hello".to_vec()).encode(), b"$5\r\nhello\r\n".to_vec());
    assert_eq!(RespValue::new_bulk(Vec::new()).encode(), b"$0\r\n\r\n".to_vec());
}

#[test]
fn encode_null_exact() {
    assert_eq!(RespValue::Null.encode(), b"$-1\r\n".to_vec());
}

#[test]
fn encode_array_exact() {
    let v = RespValue::array_with(vec![
        RespValue::new_bulk(b"hi".to_vec()),
        RespValue::new_simple(b"A".to_vec()),
    ]);
    assert_eq!(v.encode(), b"*2\r\n$2\r\nhi\r\n+A\r\n".to_vec());
}

#[test]
fn encode_empty_array_exact() {
    assert_eq!(RespValue::new_array().encode(), b"*0\r\n".to_vec());
}

#[test]
fn raw_bytes_matches_encode() {
    let v = RespValue::new_bulk(b"abc".to_vec());
    let frozen = v.raw_bytes();
    assert_eq!(frozen.as_ref(), &v.encode()[..]);
}

#[test]
fn round_trip_every_variant() {
    assert_round_trips(RespValue::new_simple(b"PONG".to_vec()));
    assert_round_trips(RespValue::new_error(b"ERR bad".to_vec()));
    assert_round_trips(RespValue::new_integer(98765));
    assert_round_trips(RespValue::new_bulk(b"binary \x00\xff safe".to_vec()));
    assert_round_trips(RespValue::new_bulk(b"line\r\nterminators\r\ninside".to_vec()));
    assert_round_trips(RespValue::Null);
    assert_round_trips(RespValue::new_array());
}

#[test]
fn round_trip_nested_array() {
    let inner = RespValue::array_with(vec![
        RespValue::new_integer(1),
        RespValue::Null,
        RespValue::new_bulk(b"x".to_vec()),
    ]);
    let outer = RespValue::array_with(vec![
        inner,
        RespValue::new_simple(b"tail".to_vec()),
    ]);
    assert_round_trips(outer);
}

#[test]
fn decoded_values_match_structure() {
    match decode_whole(b"+PONG\r\n").unwrap() {
        RespValue::Simple(s) => assert_eq!(s, b"PONG".to_vec()),
        other => panic!("expected a simple string, got {:?}", other),
    }
    match decode_whole(b":42\r\n").unwrap() {
        RespValue::Integer(i) => assert_eq!(i, 42),
        other => panic!("expected an integer, got {:?}", other),
    }
    match decode_whole(b"$3\r\nabc\r\n").unwrap() {
        RespValue::Bulk(s) => assert_eq!(s, b"abc".to_vec()),
        other => panic!("expected a bulk string, got {:?}", other),
    }
}

#[test]
fn null_array_marker_decodes_to_null_not_empty_array() {
    let v = decode_whole(b"*-1\r\n").unwrap();
    assert!(matches!(v, RespValue::Null));
    assert!(!matches!(v, RespValue::Array(_)));
}

#[test]
fn null_bulk_marker_decodes_to_null() {
    assert!(matches!(decode_whole(b"$-1\r\n").unwrap(), RespValue::Null));
}

#[test]
fn integer_with_leading_zeros_decodes() {
    match decode_whole(b":007\r\n").unwrap() {
        RespValue::Integer(i) => assert_eq!(i, 7),
        other => panic!("expected an integer, got {:?}", other),
    }
}

#[test]
fn fragmentation_one_byte_at_a_time() {
    let v = RespValue::array_with(vec![
        RespValue::new_bulk(b"SET".to_vec()),
        RespValue::new_bulk(b"key".to_vec()),
        RespValue::new_bulk(b"value".to_vec()),
    ]);
    let full = v.encode();
    let mut buf = BytesMut::new();
    let mut decoded = None;
    for (idx, byte) in full.iter().enumerate() {
        buf.extend_from_slice(&[*byte]);
        match RespValue::try_from_bytes(&mut buf) {
            Ok(val) => {
                assert_eq!(idx, full.len() - 1, "must decode only once all bytes arrived");
                decoded = Some(val);
            }
            Err(RespError::Incomplete) => {
                assert!(idx < full.len() - 1);
                assert_eq!(buf.len(), idx + 1, "an incomplete decode must not consume bytes");
            }
            Err(other) => panic!("a prefix of a valid encoding was refused: {:?}", other),
        }
    }
    assert_eq!(buf.len(), 0);
    assert_eq!(decoded.expect("the whole message must decode").encode(), full);
}

#[test]
fn fragmentation_split_at_every_boundary() {
    let v = RespValue::array_with(vec![
        RespValue::new_integer(12),
        RespValue::new_bulk(b"ab".to_vec()),
    ]);
    let full = v.encode();
    for cut in 1..full.len() {
        let mut buf = BytesMut::from(&full[..cut]);
        match RespValue::try_from_bytes(&mut buf) {
            Err(RespError::Incomplete) => {
                assert_eq!(buf.len(), cut);
                buf.extend_from_slice(&full[cut..]);
                let val = RespValue::try_from_bytes(&mut buf).unwrap();
                assert_eq!(val.encode(), full);
                assert_eq!(buf.len(), 0);
            }
            other => panic!("a strict prefix must be incomplete, got {:?}", other),
        }
    }
}

#[test]
fn pipelined_messages_decode_one_at_a_time() {
    let mut buf = BytesMut::from(&b"+first\r\n:2\r\n"[..]);
    match RespValue::try_from_bytes(&mut buf).unwrap() {
        RespValue::Simple(s) => assert_eq!(s, b"first".to_vec()),
        other => panic!("expected a simple string, got {:?}", other),
    }
    assert_eq!(&buf[..], b":2\r\n");
    match RespValue::try_from_bytes(&mut buf).unwrap() {
        RespValue::Integer(i) => assert_eq!(i, 2),
        other => panic!("expected an integer, got {:?}", other),
    }
    assert_eq!(buf.len(), 0);
}

#[test]
fn empty_buffer_is_incomplete() {
    let mut buf = BytesMut::new();
    assert!(matches!(RespValue::try_from_bytes(&mut buf), Err(RespError::Incomplete)));
}

#[test]
fn unknown_tag_is_a_protocol_violation() {
    let mut buf = BytesMut::from(&b"?foo\r\n"[..]);
    assert!(matches!(RespValue::try_from_bytes(&mut buf), Err(RespError::Other)));
    assert_eq!(&buf[..], b"?foo\r\n", "a failed decode must leave the buffer unchanged");
}

#[test]
fn non_numeric_integer_is_a_protocol_violation() {
    assert!(matches!(decode_whole(b":12a\r\n"), Err(RespError::Other)));
    assert!(matches!(decode_whole(b":\r\n"), Err(RespError::Other)));
    assert!(matches!(decode_whole(b":-5\r\n"), Err(RespError::Other)));
}

#[test]
fn non_numeric_length_is_a_protocol_violation() {
    assert!(matches!(decode_whole(b"$2x\r\nab\r\n"), Err(RespError::Other)));
    assert!(matches!(decode_whole(b"*x\r\n"), Err(RespError::Other)));
}

#[test]
fn bulk_with_bad_terminator_is_a_protocol_violation() {
    assert!(matches!(decode_whole(b"$2\r\nabXY"), Err(RespError::Other)));
}

#[test]
fn incomplete_bulk_leaves_buffer_untouched() {
    let mut buf = BytesMut::from(&b"$5\r\nhe"[..]);
    assert!(matches!(RespValue::try_from_bytes(&mut buf), Err(RespError::Incomplete)));
    assert_eq!(&buf[..], b"$5\r\nhe");
    buf.extend_from_slice(b"llo\r\n");
    match RespValue::try_from_bytes(&mut buf).unwrap() {
        RespValue::Bulk(s) => assert_eq!(s, b"hello".to_vec()),
        other => panic!("expected a bulk string, got {:?}", other),
    }
}

#[test]
fn incomplete_array_consumes_nothing() {
    let mut buf = BytesMut::from(&b"*2\r\n$2\r\nhi\r\n"[..]);
    assert!(matches!(RespValue::try_from_bytes(&mut buf), Err(RespError::Incomplete)));
    assert_eq!(&buf[..], b"*2\r\n$2\r\nhi\r\n");
}

#[test]
fn kind_names_every_variant() {
    assert_eq!(RespValue::new_simple(Vec::new()).kind(), "simple string");
    assert_eq!(RespValue::new_error(Vec::new()).kind(), "error");
    assert_eq!(RespValue::new_integer(0).kind(), "integer");
    assert_eq!(RespValue::new_bulk(Vec::new()).kind(), "bulk string");
    assert_eq!(RespValue::Null.kind(), "null");
    assert_eq!(RespValue::new_array().kind(), "array");
}

#[test]
fn array_push_appends_to_arrays() {
    let mut v = RespValue::new_array();
    v.array_push(RespValue::new_integer(1)).unwrap();
    v.array_push(RespValue::new_bulk(b"two".to_vec())).unwrap();
    assert_eq!(v.encode(), b"*2\r\n:1\r\n$3\r\ntwo\r\n".to_vec());
}

#[test]
fn array_push_refuses_other_kinds() {
    let mut v = RespValue::new_integer(3);
    match v.array_push(RespValue::Null) {
        Err(RespError::WrongKind { expected, got }) => {
            assert_eq!(expected, "array");
            assert_eq!(got, "integer");
        }
        other => panic!("expected a wrong-kind error, got {:?}", other),
    }
    assert_eq!(v.encode(), b":3\r\n".to_vec());
}

#[test]
fn error_messages_name_the_failure() {
    assert_eq!(RespError::Incomplete.message(), "stream ended early");
    assert_eq!(RespError::Other.message(), "something went wrong");
    assert_eq!(
        RespError::WrongKind { expected: "array", got: "null" }.message(),
        "wrong kind"
    );
}
