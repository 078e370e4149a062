use tokio_redis::{decode, Cmd, Decoded, Value};

fn decode_all(bytes: &[u8]) -> (Decoded, usize) {
    let mut cursor: usize = 0;
    let d = decode(bytes, &mut cursor);
    (d, cursor)
}

#[test]
fn null_bulk_string_is_nil() {
    assert_eq!(decode_all(b"$-1\r\n"), (Decoded::Complete(Value::Nil), 5));
}

#[test]
fn empty_bulk_string_is_empty_data() {
    assert_eq!(decode_all(b"$0\r\n\r\n"), (Decoded::Complete(Value::Data(vec![])), 6));
}

#[test]
fn null_array_differs_from_empty_array() {
    assert_eq!(decode_all(b"*-1\r\n"), (Decoded::Complete(Value::Nil), 5));
    assert_eq!(decode_all(b"*0\r\n"), (Decoded::Complete(Value::Bulk(vec![])), 4));
}

#[test]
fn simple_replies() {
    assert_eq!(decode_all(b"+OK\r\n").0, Decoded::Complete(Value::Status(b"OK".to_vec())));
    assert_eq!(decode_all(b":1000\r\n").0, Decoded::Complete(Value::Integer(1000)));
    assert_eq!(decode_all(b":-42\r\n").0, Decoded::Complete(Value::Integer(-42)));
    assert_eq!(
        decode_all(b":-9223372036854775808\r\n").0,
        Decoded::Complete(Value::Integer(i64::MIN))
    );
    assert_eq!(
        decode_all(b":9223372036854775807\r\n").0,
        Decoded::Complete(Value::Integer(i64::MAX))
    );
    assert_eq!(
        decode_all(b"$5\r\nhe\r\no\r\n").0,
        Decoded::Complete(Value::Data(b"he\r\no".to_vec()))
    );
}

#[test]
fn error_reply_is_ordinary_data() {
    let (d, end) = decode_all(b"-WRONGTYPE Operation against a key\r\n");
    assert_eq!(end, 36);
    match d {
        Decoded::Complete(v) => {
            assert_eq!(v.error_kind(), Some(b"WRONGTYPE".to_vec()));
            assert_eq!(v, Value::ErrorReply(b"WRONGTYPE Operation against a key".to_vec()));
        }
        other => panic!("unexpected {:?}", other),
    }
    assert_eq!(Value::ErrorReply(b" x".to_vec()).error_kind(), None);
    assert_eq!(Value::ErrorReply(b"ERR".to_vec()).error_kind(), Some(b"ERR".to_vec()));
    assert_eq!(Value::Status(b"ERR x".to_vec()).error_kind(), None);
}

#[test]
fn nested_array() {
    let bytes = b"*3\r\n:1\r\n*2\r\n$1\r\na\r\n$-1\r\n+OK\r\n";
    let expected = Value::Bulk(vec![
        Value::Integer(1),
        Value::Bulk(vec![Value::Data(b"a".to_vec()), Value::Nil]),
        Value::Status(b"OK".to_vec()),
    ]);
    assert_eq!(decode_all(bytes), (Decoded::Complete(expected), bytes.len()));
}

#[test]
fn cursor_moves_past_one_reply() {
    let bytes = b"+OK\r\n:5\r\n";
    let mut cursor: usize = 0;
    assert_eq!(decode(bytes, &mut cursor), Decoded::Complete(Value::Status(b"OK".to_vec())));
    assert_eq!(cursor, 5);
    assert_eq!(decode(bytes, &mut cursor), Decoded::Complete(Value::Integer(5)));
    assert_eq!(cursor, 9);
    assert_eq!(decode(bytes, &mut cursor), Decoded::Incomplete);
    assert_eq!(cursor, 9);
}

#[test]
fn every_cut_is_incomplete() {
    let replies: Vec<&[u8]> = vec![
        b"*3\r\n:1\r\n*2\r\n$1\r\na\r\n$-1\r\n+OK\r\n",
        b"$-1\r\n",
        b"$0\r\n\r\n",
        b"-ERR bad\r\n",
        b":-17\r\n",
        b"*0\r\n",
        b"$10\r\n0123456789\r\n",
    ];
    for full in replies {
        for k in 0..full.len() {
            let mut cursor: usize = 0;
            assert_eq!(decode(&full[..k], &mut cursor), Decoded::Incomplete, "cut at {}", k);
            assert_eq!(cursor, 0);
        }
        let (d, end) = decode_all(full);
        assert!(matches!(d, Decoded::Complete(_)));
        assert_eq!(end, full.len());
    }
}

#[test]
fn malformed_input() {
    assert_eq!(decode_all(b"?x\r\n"), (Decoded::Malformed, 0));
    assert_eq!(decode_all(b"$3\r\nabcXY"), (Decoded::Malformed, 0));
    assert_eq!(decode_all(b"$-2\r\n"), (Decoded::Malformed, 0));
    assert_eq!(decode_all(b"*-5\r\n"), (Decoded::Malformed, 0));
    assert_eq!(decode_all(b":12a\r\n"), (Decoded::Malformed, 0));
    assert_eq!(decode_all(b":\r\n"), (Decoded::Malformed, 0));
    assert_eq!(decode_all(b":9223372036854775808\r\n"), (Decoded::Malformed, 0));
    assert_eq!(decode_all(b"+O\nK\r\n"), (Decoded::Malformed, 0));
    assert_eq!(decode_all(b"+OK\rx"), (Decoded::Malformed, 0));
    assert_eq!(decode_all(b"*2\r\n:1\r\n!\r\n"), (Decoded::Malformed, 0));
}

#[test]
fn missing_bytes_are_incomplete() {
    assert_eq!(decode_all(b""), (Decoded::Incomplete, 0));
    assert_eq!(decode_all(b"$100\r\nabc"), (Decoded::Incomplete, 0));
    assert_eq!(decode_all(b"*2\r\n:1\r\n"), (Decoded::Incomplete, 0));
    assert_eq!(decode_all(b"+OK"), (Decoded::Incomplete, 0));
}

#[test]
fn request_decodes_to_its_arguments() {
    let mut cmd = Cmd::new();
    cmd.arg(b"SET").arg(b"k").arg(b"").cursor_arg(17);
    let bytes = cmd.get_packed_command();
    let expected = Value::Bulk(vec![
        Value::Data(b"SET".to_vec()),
        Value::Data(b"k".to_vec()),
        Value::Data(vec![]),
        Value::Data(b"17".to_vec()),
    ]);
    assert_eq!(decode_all(&bytes), (Decoded::Complete(expected), bytes.len()));
}

#[test]
fn server_encodings_round_trip() {
    let cases: Vec<(&[u8], Value)> = vec![
        (b"+PONG\r\n", Value::Status(b"PONG".to_vec())),
        (b"-ERR x\r\n", Value::ErrorReply(b"ERR x".to_vec())),
        (b":0\r\n", Value::Integer(0)),
        (b"$3\r\n\x00\x01\x02\r\n", Value::Data(vec![0, 1, 2])),
        (b"*1\r\n*0\r\n", Value::Bulk(vec![Value::Bulk(vec![])])),
    ];
    for (bytes, value) in cases {
        let mut with_tail = bytes.to_vec();
        with_tail.extend_from_slice(b"+NEXT\r\n");
        assert_eq!(decode_all(&with_tail), (Decoded::Complete(value), bytes.len()));
    }
}
