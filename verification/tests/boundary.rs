use resp_codec::decode_one;
use resp_codec::decode_stream;
use resp_codec::handle_request;
use resp_codec::is_retry_eligible;
use resp_codec::DecodeError;
use resp_codec::Outcome;
use resp_codec::Value;
use resp_codec::MAX_LENGTH;

#[test]
fn truncation_is_retry_eligible() {
    // Payload and terminator incomplete: buffer more bytes, never a
    // malformed verdict.
    assert_eq!(decode_stream(b"$4\r\na\r"), Outcome::NeedMoreData);
    assert!(matches!(
        decode_one(b"$4\r\na\r"),
        Err(DecodeError::TruncatedBody)
    ));
    assert!(is_retry_eligible(&DecodeError::TruncatedBody));
}

#[test]
fn stream_outcomes() {
    assert_eq!(
        decode_stream(b"+OK\r\n+OK\r\n"),
        Outcome::Decoded(Value::SimpleString(b"OK".to_vec()), 5)
    );
    assert_eq!(decode_stream(b""), Outcome::NeedMoreData);
    assert_eq!(decode_stream(b"+OK"), Outcome::NeedMoreData);
    assert_eq!(decode_stream(b"+OK\r"), Outcome::NeedMoreData);
    assert_eq!(decode_stream(b"$10\r\nabc"), Outcome::NeedMoreData);
    assert_eq!(
        decode_stream(b"%x\r\n"),
        Outcome::Malformed(DecodeError::UnknownTypeTag)
    );
    assert_eq!(
        decode_stream(b"+OK\rX\n"),
        Outcome::Malformed(DecodeError::MalformedTerminator)
    );
}

#[test]
fn retry_classification() {
    assert!(is_retry_eligible(&DecodeError::UnexpectedEndOfInput));
    assert!(is_retry_eligible(&DecodeError::MissingTerminator));
    assert!(is_retry_eligible(&DecodeError::TruncatedBody));
    assert!(!is_retry_eligible(&DecodeError::UnknownTypeTag));
    assert!(!is_retry_eligible(&DecodeError::MalformedTerminator));
    assert!(!is_retry_eligible(&DecodeError::InvalidInteger));
    assert!(!is_retry_eligible(&DecodeError::InvalidLength));
    assert!(!is_retry_eligible(&DecodeError::TrailingData));
    assert!(!is_retry_eligible(&DecodeError::RecursionLimitExceeded));
}

#[test]
fn length_cap_is_enforced() {
    // One above the cap is rejected before any allocation.
    let mut over = Vec::new();
    over.extend_from_slice(b"$");
    over.extend_from_slice((MAX_LENGTH as u64 + 1).to_string().as_bytes());
    over.extend_from_slice(b"\r\n");
    assert_eq!(decode_one(&over), Err(DecodeError::InvalidLength));

    // The cap itself is accepted as a header (the body is just missing).
    let mut at = Vec::new();
    at.extend_from_slice(b"$");
    at.extend_from_slice((MAX_LENGTH as u64).to_string().as_bytes());
    at.extend_from_slice(b"\r\n");
    assert_eq!(decode_one(&at), Err(DecodeError::TruncatedBody));
}

#[test]
fn recursion_cap_is_enforced() {
    // 65 nested arrays exceed the cap of 64.
    let mut deep = Vec::new();
    for _ in 0..65 {
        deep.extend_from_slice(b"*1\r\n");
    }
    assert_eq!(decode_one(&deep), Err(DecodeError::RecursionLimitExceeded));

    // 64 levels are the deepest accepted nesting.
    let mut ok = Vec::new();
    for _ in 0..63 {
        ok.extend_from_slice(b"*1\r\n");
    }
    ok.extend_from_slice(b"*0\r\n");
    let decoded = decode_one(&ok).unwrap();
    let mut expected = Value::Array(vec![]);
    for _ in 0..63 {
        expected = Value::Array(vec![expected]);
    }
    assert_eq!(decoded, expected);
}

#[test]
fn handle_request_echoes_or_rejects() {
    assert_eq!(handle_request(b"+PING\r\n"), b"+PING\r\n".to_vec());
    assert_eq!(
        handle_request(b"*1\r\n$4\r\nPING\r\n"),
        b"*1\r\n$4\r\nPING\r\n".to_vec()
    );
    assert_eq!(handle_request(b"garbage"), b"+NG\r\n".to_vec());
    assert_eq!(handle_request(b"+OK\r\n+OK\r\n"), b"+NG\r\n".to_vec());
    assert_eq!(handle_request(b""), b"+NG\r\n".to_vec());
}
