use resp_codec::consume_crlf;
use resp_codec::decode_one;
use resp_codec::decode_size;
use resp_codec::decode_value;
use resp_codec::encode;
use resp_codec::encode_simple_string;
use resp_codec::split_with_crlf;
use resp_codec::DecodeError;
use resp_codec::Value;

#[test]
fn test_decode_size() {
    assert_eq!(decode_size(b""), Err(DecodeError::MissingTerminator));
    assert_eq!(decode_size(b"\r"), Err(DecodeError::MissingTerminator));
    assert_eq!(decode_size(b"\r\n"), Err(DecodeError::InvalidLength));
    assert_eq!(decode_size(b"0"), Err(DecodeError::MissingTerminator));
    assert_eq!(decode_size(b"0\r\nrest"), Ok((0usize, 3usize)));
    assert_eq!(&b"0\r\nrest"[3..], b"rest");
    assert_eq!(decode_size(b"1\r\nrest"), Ok((1usize, 3usize)));
    assert_eq!(&b"1\r\nrest"[3..], b"rest");
    assert_eq!(decode_size(b"10\r\nrest"), Ok((10usize, 4usize)));
    assert_eq!(&b"10\r\nrest"[4..], b"rest");
}

#[test]
fn test_split_with_crlf() {
    assert_eq!(split_with_crlf(b""), Err(DecodeError::MissingTerminator));
    assert_eq!(split_with_crlf(b"\r"), Err(DecodeError::MissingTerminator));
    assert_eq!(split_with_crlf(b"\r\n"), Ok((&b""[..], &b""[..])));
    assert_eq!(split_with_crlf(b"123\r\n"), Ok((&b"123"[..], &b""[..])));
    assert_eq!(split_with_crlf(b"\r\n456"), Ok((&b""[..], &b"456"[..])));
    assert_eq!(split_with_crlf(b"123\r\n456"), Ok((&b"123"[..], &b"456"[..])));
    assert_eq!(
        split_with_crlf(b"123\r\n456\r\n789"),
        Ok((&b"123"[..], &b"456\r\n789"[..]))
    );
    assert_eq!(
        split_with_crlf(b"123\r\n\r\n789"),
        Ok((&b"123"[..], &b"\r\n789"[..]))
    );
}

#[test]
fn test_consume_crlf() {
    assert_eq!(consume_crlf(b""), Err(DecodeError::MissingTerminator));
    assert_eq!(consume_crlf(b"\r"), Err(DecodeError::MissingTerminator));
    assert_eq!(consume_crlf(b"\n"), Err(DecodeError::MalformedTerminator));
    assert_eq!(consume_crlf(b"123\r\n"), Err(DecodeError::MalformedTerminator));
    assert_eq!(consume_crlf(b"\r\n"), Ok(&b""[..]));
    assert_eq!(consume_crlf(b"\r\n456"), Ok(&b"456"[..]));
}

#[test]
fn test_decode() {
    // Malformed or incomplete
    assert_eq!(decode_one(b""), Err(DecodeError::UnexpectedEndOfInput));
    assert_eq!(decode_one(b"+OK\r\n+OK\r\n"), Err(DecodeError::TrailingData));

    // SimpleString
    assert_eq!(
        decode_one(b"+OK\r\n"),
        Ok(Value::SimpleString(b"OK".to_vec()))
    );

    // Error
    assert_eq!(
        decode_one(b"-ERR unknown command 'foobar'\r\n"),
        Ok(Value::Error(b"ERR unknown command 'foobar'".to_vec()))
    );

    // Integer
    assert_eq!(decode_one(b":"), Err(DecodeError::MissingTerminator));
    assert_eq!(decode_one(b":\r\n"), Err(DecodeError::InvalidInteger));
    assert_eq!(decode_one(b":123\r\n"), Ok(Value::Integer(123i64)));

    // Array
    assert_eq!(decode_one(b"*0\r\n"), Ok(Value::Array(vec![])));
    assert_eq!(
        decode_one(b"*1\r\n+OK\r\n"),
        Ok(Value::Array(vec![Value::SimpleString(b"OK".to_vec())]))
    );
    assert_eq!(
        decode_one(b"*2\r\n+OK\r\n+NG\r\n"),
        Ok(Value::Array(vec![
            Value::SimpleString(b"OK".to_vec()),
            Value::SimpleString(b"NG".to_vec())
        ]))
    );

    // BulkString
    assert_eq!(decode_one(b"$"), Err(DecodeError::MissingTerminator));
    assert_eq!(decode_one(b"$0"), Err(DecodeError::MissingTerminator));
    assert_eq!(decode_one(b"$0\r"), Err(DecodeError::MissingTerminator));
    assert_eq!(decode_one(b"$0\n"), Err(DecodeError::MissingTerminator));
    assert_eq!(decode_one(b"$0\r\n"), Err(DecodeError::MissingTerminator));
    assert_eq!(decode_one(b"$0\r\n\r\n"), Ok(Value::BulkString(b"".to_vec())));
    assert_eq!(
        decode_one(b"$1\r\na\r\n"),
        Ok(Value::BulkString(b"a".to_vec()))
    );
    assert_eq!(
        decode_one(b"$4\r\na\r\nb\r\n"),
        Ok(Value::BulkString(b"a\r\nb".to_vec()))
    );
}

#[test]
fn test_encode_simple_string() {
    let value = Value::SimpleString(b"OK".to_vec());
    let result = encode(&value);
    assert_eq!(result, b"+OK\r\n".to_vec())
}

#[test]
fn encode_every_variant() {
    assert_eq!(encode(&Value::SimpleString(b"OK".to_vec())), b"+OK\r\n");
    assert_eq!(encode(&Value::Error(b"ERR oops".to_vec())), b"-ERR oops\r\n");
    assert_eq!(encode(&Value::Integer(0)), b":0\r\n");
    assert_eq!(encode(&Value::Integer(123)), b":123\r\n");
    assert_eq!(encode(&Value::Integer(-7)), b":-7\r\n");
    assert_eq!(
        encode(&Value::Integer(i64::MAX)),
        b":9223372036854775807\r\n"
    );
    assert_eq!(
        encode(&Value::Integer(i64::MIN)),
        b":-9223372036854775808\r\n"
    );
    assert_eq!(encode(&Value::BulkString(b"a\r\nb".to_vec())), b"$4\r\na\r\nb\r\n");
    assert_eq!(encode(&Value::BulkString(b"".to_vec())), b"$0\r\n\r\n");
    assert_eq!(encode(&Value::Array(vec![])), b"*0\r\n");
    assert_eq!(
        encode(&Value::Array(vec![
            Value::Integer(1),
            Value::Array(vec![Value::SimpleString(b"hi".to_vec())]),
        ])),
        b"*2\r\n:1\r\n*1\r\n+hi\r\n"
    );
    let helper = encode_simple_string(&b"PONG".to_vec());
    assert_eq!(helper, b"+PONG\r\n");
}

#[test]
fn round_trip_every_variant() {
    let values = vec![
        Value::SimpleString(b"OK".to_vec()),
        Value::Error(b"ERR wrong type".to_vec()),
        Value::Integer(-42),
        Value::Integer(i64::MIN),
        Value::Integer(i64::MAX),
        Value::BulkString(b"binary \r\n \x00 payload".to_vec()),
        Value::Array(vec![]),
        Value::Array(vec![
            Value::BulkString(b"GET".to_vec()),
            Value::BulkString(b"key".to_vec()),
            Value::Array(vec![Value::Integer(7)]),
        ]),
    ];
    for v in values {
        let bytes = encode(&v);
        assert_eq!(decode_one(&bytes), Ok(v));
    }
}

#[test]
fn byte_exact_reencoding() {
    let buffers: Vec<&[u8]> = vec![
        b"+OK\r\n",
        b"-ERR unknown command 'foobar'\r\n",
        b":-123\r\n",
        b"$4\r\na\r\nb\r\n",
        b"*2\r\n+OK\r\n:5\r\n",
        b"*1\r\n*0\r\n",
    ];
    for b in buffers {
        let v = decode_one(b).unwrap();
        assert_eq!(encode(&v), b);
    }
}

#[test]
fn binary_safe_bulk_payload() {
    // The embedded CR LF does not terminate the payload.
    assert_eq!(
        decode_one(b"$4\r\na\r\nb\r\n"),
        Ok(Value::BulkString(b"a\r\nb".to_vec()))
    );
    assert_eq!(
        decode_one(b"$2\r\n\r\n\r\n"),
        Ok(Value::BulkString(b"\r\n".to_vec()))
    );
}

#[test]
fn empty_containers() {
    assert_eq!(decode_one(b"*0\r\n"), Ok(Value::Array(vec![])));
    assert_eq!(decode_one(b"$0\r\n\r\n"), Ok(Value::BulkString(b"".to_vec())));
}

#[test]
fn nested_array() {
    assert_eq!(
        decode_one(b"*2\r\n+OK\r\n+NG\r\n"),
        Ok(Value::Array(vec![
            Value::SimpleString(b"OK".to_vec()),
            Value::SimpleString(b"NG".to_vec())
        ]))
    );
}

#[test]
fn integer_edge_cases() {
    assert_eq!(
        decode_one(b":9223372036854775807\r\n"),
        Ok(Value::Integer(i64::MAX))
    );
    assert_eq!(
        decode_one(b":-9223372036854775808\r\n"),
        Ok(Value::Integer(i64::MIN))
    );
    // Out of 64-bit range.
    assert_eq!(
        decode_one(b":9223372036854775808\r\n"),
        Err(DecodeError::InvalidInteger)
    );
    assert_eq!(
        decode_one(b":-9223372036854775809\r\n"),
        Err(DecodeError::InvalidInteger)
    );
    // Only the canonical spelling is accepted: no leading zeros, no plus
    // sign, no minus zero, no stray bytes.
    assert_eq!(decode_one(b":007\r\n"), Err(DecodeError::InvalidInteger));
    assert_eq!(decode_one(b":+1\r\n"), Err(DecodeError::InvalidInteger));
    assert_eq!(decode_one(b":-0\r\n"), Err(DecodeError::InvalidInteger));
    assert_eq!(decode_one(b":-\r\n"), Err(DecodeError::InvalidInteger));
    assert_eq!(decode_one(b":12a\r\n"), Err(DecodeError::InvalidInteger));
}

#[test]
fn trailing_data_vs_streaming() {
    assert_eq!(decode_one(b"+OK\r\n+OK\r\n"), Err(DecodeError::TrailingData));
    let (v, consumed) = decode_value(b"+OK\r\n+OK\r\n").unwrap();
    assert_eq!(v, Value::SimpleString(b"OK".to_vec()));
    assert_eq!(consumed, 5);
    assert_eq!(&b"+OK\r\n+OK\r\n"[consumed..], b"+OK\r\n");
}

#[test]
fn specific_error_kinds() {
    assert_eq!(decode_one(b""), Err(DecodeError::UnexpectedEndOfInput));
    assert_eq!(decode_one(b"%x\r\n"), Err(DecodeError::UnknownTypeTag));
    assert_eq!(decode_one(b"+OK"), Err(DecodeError::MissingTerminator));
    assert_eq!(decode_one(b"+OK\rX\n"), Err(DecodeError::MalformedTerminator));
    assert_eq!(decode_one(b":x\r\n"), Err(DecodeError::InvalidInteger));
    assert_eq!(decode_one(b"$-1\r\n"), Err(DecodeError::InvalidLength));
    assert_eq!(decode_one(b"$007\r\n"), Err(DecodeError::InvalidLength));
    assert_eq!(decode_one(b"*abc\r\n"), Err(DecodeError::InvalidLength));
    assert_eq!(decode_one(b"$5\r\nab\r\n"), Err(DecodeError::TruncatedBody));
    // Four declared bytes swallow the CR LF verbatim; the terminator is
    // then still owed.
    assert_eq!(decode_one(b"$4\r\nab\r\n"), Err(DecodeError::MissingTerminator));
    assert_eq!(
        decode_one(b"$1\r\nab\r\n"),
        Err(DecodeError::MalformedTerminator)
    );
    assert_eq!(decode_one(b"$1\r\na\r"), Err(DecodeError::MissingTerminator));
}

#[test]
fn per_type_decoders() {
    // Each per-type decoder takes the bytes after its tag and reports the
    // count of bytes it consumed.
    assert_eq!(
        resp_codec::decode_simple_string(b"OK\r\nrest"),
        Ok((Value::SimpleString(b"OK".to_vec()), 4))
    );
    assert_eq!(
        resp_codec::decode_error(b"ERR bad\r\n"),
        Ok((Value::Error(b"ERR bad".to_vec()), 9))
    );
    assert_eq!(
        resp_codec::decode_integer(b"-12\r\n:"),
        Ok((Value::Integer(-12), 5))
    );
    assert_eq!(
        resp_codec::decode_bulk_string(b"4\r\na\r\nb\r\n"),
        Ok((Value::BulkString(b"a\r\nb".to_vec()), 9))
    );
    assert_eq!(
        resp_codec::decode_array(b"2\r\n:1\r\n:2\r\n"),
        Ok((
            Value::Array(vec![Value::Integer(1), Value::Integer(2)]),
            11
        ))
    );
    assert_eq!(
        resp_codec::decode_integer(b"x\r\n"),
        Err(DecodeError::InvalidInteger)
    );
}

#[test]
fn array_child_error_propagates() {
    assert_eq!(decode_one(b"*2\r\n+OK\r\n:x\r\n"), Err(DecodeError::InvalidInteger));
    assert_eq!(
        decode_one(b"*2\r\n+OK\r\n"),
        Err(DecodeError::UnexpectedEndOfInput)
    );
}
