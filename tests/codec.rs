use resp::{decode, decode_prefix, DecodeError, Value};

const DEPTH: usize = 32;

fn bulk(s: &str) -> Value {
    Value::BulkString(s.as_bytes().to_vec())
}

#[test]
fn decode_simple_string() {
    assert_eq!(decode(b"+OK\r\n", DEPTH), Ok(Value::SimpleString("OK".to_string())));
}

#[test]
fn decode_null_forms() {
    assert_eq!(decode(b"$-1\r\n", DEPTH), Ok(Value::Null));
    assert_eq!(decode(b"*-1\r\n", DEPTH), Ok(Value::NullArray));
}

#[test]
fn decode_bulk_string() {
    assert_eq!(
        decode(b"$5\r\nhello\r\n", DEPTH),
        Ok(Value::BulkString(vec![104, 101, 108, 108, 111]))
    );
}

#[test]
fn decode_array_of_bulk_strings() {
    assert_eq!(
        decode(b"*2\r\n$4\r\nPING\r\n$0\r\n\r\n", DEPTH),
        Ok(Value::Array(vec![bulk("PING"), bulk("")]))
    );
}

#[test]
fn decode_short_bulk_is_truncated() {
    assert_eq!(decode(b"$5\r\nabc\r\n", DEPTH), Err(DecodeError::TruncatedInput));
}

#[test]
fn decode_bulk_without_crlf() {
    assert_eq!(decode(b"$3\r\nabcXY", DEPTH), Err(DecodeError::InvalidTerminator));
}

#[test]
fn decode_unknown_tag() {
    assert_eq!(decode(b"&1\r\n", DEPTH), Err(DecodeError::UnknownType { tag: b'&' }));
}

#[test]
fn map_encode_and_decode() {
    let v = Value::RespMap(vec![(bulk("a"), Value::Integer(1))]);
    let bytes = v.encode();
    assert_eq!(bytes, b"%1\r\n$1\r\na\r\n:1\r\n".to_vec());
    assert_eq!(decode(&bytes, DEPTH), Ok(v));
}

#[test]
fn round_trip_nested_value() {
    let v = Value::Array(vec![
        Value::SimpleString("héllo wörld".to_string()),
        Value::SimpleError("ERR bad".to_string()),
        Value::Integer(-42),
        Value::Integer(i64::MIN),
        Value::Integer(i64::MAX),
        Value::BulkString(vec![0, 13, 10, 255]),
        Value::BulkError(b"oops".to_vec()),
        Value::Null,
        Value::NullArray,
        Value::Bool(true),
        Value::Bool(false),
        Value::RespSet(vec![Value::Integer(3), bulk("x")]),
        Value::RespMap(vec![
            (bulk("k"), Value::Array(vec![])),
            (Value::Integer(7), Value::RespMap(vec![])),
        ]),
        Value::SimpleString(String::new()),
    ]);
    let bytes = v.encode();
    assert_eq!(decode(&bytes, DEPTH), Ok(v));
}

#[test]
fn round_trip_keeps_trailing_bytes_apart() {
    let v = Value::Array(vec![bulk("GET"), bulk("key")]);
    let mut bytes = v.encode();
    let used = bytes.len();
    bytes.extend_from_slice(b"+next\r\n");
    assert_eq!(decode_prefix(&bytes, DEPTH), Ok((v, used)));
    assert_eq!(
        decode_prefix(&bytes[used..], DEPTH),
        Ok((Value::SimpleString("next".to_string()), 7))
    );
}

#[test]
fn encode_each_variant() {
    assert_eq!(Value::Null.encode(), b"$-1\r\n".to_vec());
    assert_eq!(Value::NullArray.encode(), b"*-1\r\n".to_vec());
    assert_eq!(Value::SimpleString("OK".to_string()).encode(), b"+OK\r\n".to_vec());
    assert_eq!(Value::SimpleError("ERR x".to_string()).encode(), b"-ERR x\r\n".to_vec());
    assert_eq!(Value::Integer(0).encode(), b":0\r\n".to_vec());
    assert_eq!(Value::Integer(-5).encode(), b":-5\r\n".to_vec());
    assert_eq!(Value::Integer(1234).encode(), b":1234\r\n".to_vec());
    assert_eq!(Value::Integer(i64::MIN).encode(), b":-9223372036854775808\r\n".to_vec());
    assert_eq!(bulk("hey").encode(), b"$3\r\nhey\r\n".to_vec());
    assert_eq!(Value::BulkError(b"no".to_vec()).encode(), b"!2\r\nno\r\n".to_vec());
    assert_eq!(
        Value::RespSet(vec![Value::Bool(true), Value::Bool(false)]).encode(),
        b"~2\r\n#t\r\n#f\r\n".to_vec()
    );
    assert_eq!(
        Value::Array(vec![Value::Integer(1), bulk("")]).encode(),
        b"*2\r\n:1\r\n$0\r\n\r\n".to_vec()
    );
}

#[test]
fn encode_multibyte_text_as_utf8() {
    assert_eq!(
        Value::SimpleString("é€".to_string()).encode(),
        vec![b'+', 0xc3, 0xa9, 0xe2, 0x82, 0xac, b'\r', b'\n']
    );
}

#[test]
fn decode_utf8_simple_text() {
    assert_eq!(
        decode("+héllo\r\n".as_bytes(), DEPTH),
        Ok(Value::SimpleString("héllo".to_string()))
    );
    assert_eq!(decode(b"-ERR x\r\n", DEPTH), Ok(Value::SimpleError("ERR x".to_string())));
}

#[test]
fn decode_invalid_utf8() {
    assert_eq!(decode(b"+\xff\xfe\r\n", DEPTH), Err(DecodeError::InvalidEncoding));
    assert_eq!(decode(b"-\xc0\xaf\r\n", DEPTH), Err(DecodeError::InvalidEncoding));
}

#[test]
fn decode_integers() {
    assert_eq!(decode(b":42\r\n", DEPTH), Ok(Value::Integer(42)));
    assert_eq!(decode(b":-17\r\n", DEPTH), Ok(Value::Integer(-17)));
    assert_eq!(decode(b":007\r\n", DEPTH), Ok(Value::Integer(7)));
    assert_eq!(decode(b":-0\r\n", DEPTH), Ok(Value::Integer(0)));
    assert_eq!(decode(b":9223372036854775807\r\n", DEPTH), Ok(Value::Integer(i64::MAX)));
    assert_eq!(decode(b":-9223372036854775808\r\n", DEPTH), Ok(Value::Integer(i64::MIN)));
}

#[test]
fn decode_invalid_integers() {
    for input in [
        &b":9223372036854775808\r\n"[..],
        b":-9223372036854775809\r\n",
        b":99999999999999999999999\r\n",
        b":+5\r\n",
        b": 5\r\n",
        b":1_000\r\n",
        b":12a\r\n",
        b":-\r\n",
        b":\r\n",
        b":--1\r\n",
    ] {
        assert_eq!(decode(input, DEPTH), Err(DecodeError::InvalidInteger));
    }
}

#[test]
fn decode_booleans() {
    assert_eq!(decode(b"#t\r\n", DEPTH), Ok(Value::Bool(true)));
    assert_eq!(decode(b"#f\r\n", DEPTH), Ok(Value::Bool(false)));
    assert_eq!(decode(b"#x\r\n", DEPTH), Err(DecodeError::InvalidBoolean));
    assert_eq!(decode(b"#tt\r\n", DEPTH), Err(DecodeError::InvalidBoolean));
    assert_eq!(decode(b"#\r\n", DEPTH), Err(DecodeError::InvalidBoolean));
}

#[test]
fn decode_bulk_errors_and_lengths() {
    assert_eq!(decode(b"!3\r\nbad\r\n", DEPTH), Ok(Value::BulkError(b"bad".to_vec())));
    assert_eq!(decode(b"$0\r\n\r\n", DEPTH), Ok(Value::BulkString(vec![])));
    assert_eq!(decode(b"$2\r\n\r\n\r\n", DEPTH), Ok(Value::BulkString(vec![13, 10])));
    assert_eq!(decode(b"$-2\r\n", DEPTH), Err(DecodeError::InvalidInteger));
    assert_eq!(decode(b"!-1\r\n", DEPTH), Err(DecodeError::InvalidInteger));
    assert_eq!(decode(b"$x\r\n", DEPTH), Err(DecodeError::InvalidInteger));
    assert_eq!(decode(b"$3\r\nabc\r", DEPTH), Err(DecodeError::TruncatedInput));
    assert_eq!(decode(b"$3\r\nabc\n\r", DEPTH), Err(DecodeError::InvalidTerminator));
}

#[test]
fn decode_containers() {
    assert_eq!(
        decode(b"~2\r\n:1\r\n:1\r\n", DEPTH),
        Ok(Value::RespSet(vec![Value::Integer(1), Value::Integer(1)]))
    );
    assert_eq!(
        decode(b"%2\r\n+a\r\n:1\r\n+a\r\n:2\r\n", DEPTH),
        Ok(Value::RespMap(vec![
            (Value::SimpleString("a".to_string()), Value::Integer(1)),
            (Value::SimpleString("a".to_string()), Value::Integer(2)),
        ]))
    );
    assert_eq!(decode(b"*0\r\n", DEPTH), Ok(Value::Array(vec![])));
    assert_eq!(decode(b"~-1\r\n", DEPTH), Err(DecodeError::InvalidInteger));
    assert_eq!(decode(b"%-1\r\n", DEPTH), Err(DecodeError::InvalidInteger));
    assert_eq!(decode(b"*-3\r\n", DEPTH), Err(DecodeError::InvalidInteger));
}

#[test]
fn decode_child_error_aborts_container() {
    assert_eq!(decode(b"*2\r\n:1\r\n#z\r\n", DEPTH), Err(DecodeError::InvalidBoolean));
    assert_eq!(decode(b"*2\r\n:1\r\n", DEPTH), Err(DecodeError::TruncatedInput));
    assert_eq!(decode(b"%1\r\n:1\r\n", DEPTH), Err(DecodeError::TruncatedInput));
}

#[test]
fn decode_truncated_and_malformed_lines() {
    assert_eq!(decode(b"", DEPTH), Err(DecodeError::TruncatedInput));
    assert_eq!(decode(b"+OK", DEPTH), Err(DecodeError::TruncatedInput));
    assert_eq!(decode(b"+OK\r", DEPTH), Err(DecodeError::TruncatedInput));
    assert_eq!(decode(b"\n", DEPTH), Err(DecodeError::MalformedLine));
    assert_eq!(decode(b"+\n", DEPTH), Err(DecodeError::MalformedLine));
    assert_eq!(decode(b"+OK\n", DEPTH), Err(DecodeError::MalformedLine));
    assert_eq!(decode(b"+\r\n", DEPTH), Ok(Value::SimpleString(String::new())));
}

#[test]
fn decode_depth_limit() {
    assert_eq!(decode(b"*1\r\n*0\r\n", 1), Err(DecodeError::DepthExceeded));
    assert_eq!(decode(b"*1\r\n*0\r\n", 2), Ok(Value::Array(vec![Value::Array(vec![])])));
    assert_eq!(decode(b"*0\r\n", 0), Err(DecodeError::DepthExceeded));
    assert_eq!(decode(b"*-1\r\n", 0), Ok(Value::NullArray));
    assert_eq!(decode(b":5\r\n", 0), Ok(Value::Integer(5)));
    assert_eq!(decode(b"%1\r\n:1\r\n~0\r\n", 1), Err(DecodeError::DepthExceeded));
}

#[test]
fn decode_ignores_bytes_after_the_unit() {
    assert_eq!(decode(b":1\r\n:2\r\n", DEPTH), Ok(Value::Integer(1)));
    assert_eq!(decode_prefix(b":1\r\n:2\r\n", DEPTH), Ok((Value::Integer(1), 4)));
}
