use resp::{dispatch, parse_command, respond, Command, DecodeError, Step, Value};

fn request(name: &str) -> Value {
    Value::Array(vec![Value::SimpleString(name.to_string())])
}

#[test]
fn ping_in_any_case_gets_pong() {
    for name in ["ping", "PING", "Ping", "pInG"] {
        assert_eq!(dispatch(&request(name)), Value::SimpleString("pong".to_string()));
    }
}

#[test]
fn unknown_command_gets_error_value() {
    let reply = dispatch(&request("foo"));
    assert!(matches!(reply, Value::SimpleError(_)));
    assert_eq!(reply, Value::SimpleError("ERR unknown command".to_string()));
}

#[test]
fn malformed_requests_get_error_values() {
    assert!(matches!(dispatch(&Value::Array(vec![])), Value::SimpleError(_)));
    assert!(matches!(dispatch(&Value::SimpleString("ping".to_string())), Value::SimpleError(_)));
    assert!(matches!(dispatch(&Value::Array(vec![Value::Integer(1)])), Value::SimpleError(_)));
    assert_eq!(parse_command(&request("pingx")), None);
    assert_eq!(parse_command(&request("pin")), None);
}

#[test]
fn bulk_command_names_are_unknown_commands() {
    let req = Value::Array(vec![Value::BulkString(b"PING".to_vec())]);
    assert_eq!(parse_command(&req), None);
    assert_eq!(dispatch(&req), Value::SimpleError("ERR unknown command".to_string()));
    let req = Value::Array(vec![Value::BulkString(b"Command".to_vec()), Value::BulkString(b"DOCS".to_vec())]);
    assert_eq!(parse_command(&req), None);
    assert!(matches!(dispatch(&req), Value::SimpleError(_)));
}

#[test]
fn simple_string_command_names_are_recognised() {
    assert_eq!(parse_command(&request("PING")), Some(Command::Ping));
    assert_eq!(parse_command(&request("Command")), Some(Command::Command));
    let req = Value::Array(vec![
        Value::SimpleString("command".to_string()),
        Value::BulkString(b"DOCS".to_vec()),
    ]);
    assert_eq!(parse_command(&req), Some(Command::Command));
}

#[test]
fn command_reply_describes_ping() {
    let reply = dispatch(&request("COMMAND"));
    let expected = b"*1\r\n%6\r\n$4\r\nname\r\n$4\r\nping\r\n$5\r\narity\r\n:1\r\n$5\r\nflags\r\n*1\r\n$4\r\nfast\r\n$9\r\nfirst-key\r\n:0\r\n$8\r\nlast-key\r\n:0\r\n$4\r\nstep\r\n:0\r\n";
    assert_eq!(reply.encode(), expected.to_vec());
}

#[test]
fn respond_answers_complete_requests_only() {
    let input = b"*1\r\n+PING\r\n+rest";
    match respond(input, 8) {
        Step::Reply { reply, used } => {
            assert_eq!(reply, b"+pong\r\n".to_vec());
            assert_eq!(used, 11);
        }
        other => panic!("unexpected {:?}", other),
    }
    assert!(matches!(respond(b"*1\r\n+PI", 8), Step::NeedMore));
    match respond(b"*1\r\n$4\r\nPING\r\n", 8) {
        Step::Reply { reply, .. } => assert_eq!(reply, b"-ERR unknown command\r\n".to_vec()),
        other => panic!("unexpected {:?}", other),
    }
    assert!(matches!(respond(b"", 8), Step::NeedMore));
    assert!(matches!(respond(b"?\r\n", 8), Step::Fail(DecodeError::UnknownType { tag: b'?' })));
    match respond(b"*1\r\n+hello\r\n", 8) {
        Step::Reply { reply, .. } => assert_eq!(reply, b"-ERR unknown command\r\n".to_vec()),
        other => panic!("unexpected {:?}", other),
    }
}
