use vstd::prelude::*;
use vstd::utf8::encode_utf8;
use crate::value::{Value, ValueModel};
use crate::encode::{pair_models, encode_model};
use crate::decode::{DecodeError, parse_value, decode_prefix};

verus! {

/// The commands that a request may name.
#[derive(Debug, Clone, Copy, PartialEq, Eq, Structural)]
pub enum Command {
    Ping,
    Command,
}

/// An ASCII upper-case letter as lower case; any other byte as it is.
pub open spec fn ascii_lower(b: u8) -> u8 {
    if 0x41 <= b <= 0x5a {
        (b + 0x20) as u8
    } else {
        b
    }
}

/// `name` spells the lower-case `word`, ignoring ASCII letter case.
pub open spec fn names(name: Seq<u8>, word: Seq<u8>) -> bool {
    name.len() == word.len() && forall|i: int| 0 <= i < name.len() ==> ascii_lower(#[trigger] name[i]) == word[i]
}

pub open spec fn ping_word() -> Seq<u8> {
    seq![0x70u8, 0x69, 0x6e, 0x67]
}

pub open spec fn command_word() -> Seq<u8> {
    seq![0x63u8, 0x6f, 0x6d, 0x6d, 0x61, 0x6e, 0x64]
}

/// The bytes that name the command of a request: its first element, when
/// the request is a non-empty array and that element is a simple string,
/// as UTF-8. Any other first element names no command.
pub open spec fn command_name(request: ValueModel) -> Option<Seq<u8>> {
    match request {
        ValueModel::Array(items) => if items.len() == 0 {
            None
        } else {
            match items[0] {
                ValueModel::SimpleString(s) => Some(encode_utf8(s)),
                _ => None,
            }
        },
        _ => None,
    }
}

/// The command that a request names, letter case aside.
pub open spec fn command_of(request: ValueModel) -> Option<Command> {
    match command_name(request) {
        Some(n) => if names(n, ping_word()) {
            Some(Command::Ping)
        } else if names(n, command_word()) {
            Some(Command::Command)
        } else {
            None
        },
        None => None,
    }
}

/// What `COMMAND` replies: one map that describes `ping`.
pub open spec fn command_reply_model() -> ValueModel {
    ValueModel::Array(
        seq![
            ValueModel::RespMap(
                seq![
                    (ValueModel::BulkString(encode_utf8("name"@)), ValueModel::BulkString(encode_utf8("ping"@))),
                    (ValueModel::BulkString(encode_utf8("arity"@)), ValueModel::Integer(1)),
                    (
                        ValueModel::BulkString(encode_utf8("flags"@)),
                        ValueModel::Array(seq![ValueModel::BulkString(encode_utf8("fast"@))]),
                    ),
                    (ValueModel::BulkString(encode_utf8("first-key"@)), ValueModel::Integer(0)),
                    (ValueModel::BulkString(encode_utf8("last-key"@)), ValueModel::Integer(0)),
                    (ValueModel::BulkString(encode_utf8("step"@)), ValueModel::Integer(0)),
                ],
            ),
        ],
    )
}

/// The response to a request: `pong` for `PING`, the command description
/// for `COMMAND`, and a protocol error value for anything else.
pub open spec fn reply_model(request: ValueModel) -> ValueModel {
    match command_of(request) {
        Some(Command::Ping) => ValueModel::SimpleString("pong"@),
        Some(Command::Command) => command_reply_model(),
        None => ValueModel::SimpleError("ERR unknown command"@),
    }
}

/// A request whose first element is a simple string that spells `ping`, in
/// any letter case, is answered with the simple string `pong`.
pub proof fn lemma_ping_any_case(name: Seq<char>, rest: Seq<ValueModel>)
    requires
        names(encode_utf8(name), ping_word()),
    ensures
        reply_model(ValueModel::Array(seq![ValueModel::SimpleString(name)] + rest))
            == ValueModel::SimpleString("pong"@),
{
    assert((seq![ValueModel::SimpleString(name)] + rest)[0] == ValueModel::SimpleString(name));
}

/// A request that names no known command is answered with a protocol error
/// value: a simple error, which encodes like any other value.
pub proof fn lemma_unknown_command_is_error_value(request: ValueModel)
    requires
        command_of(request) is None,
    ensures
        reply_model(request) is SimpleError,
{
}

/// A request that is not an array, is an empty array, or whose first element
/// is anything but a simple string (a bulk string included) names no command,
/// and is answered with a simple error value.
pub proof fn lemma_only_simple_string_names(request: ValueModel)
    requires
        !(request is Array && request->Array_0.len() > 0 && request->Array_0[0] is SimpleString),
    ensures
        command_of(request) is None,
        reply_model(request) is SimpleError,
{
}

fn names_word(name: &[u8], word: &Vec<u8>) -> (r: bool)
    ensures
        r == names(name@, word@),
{
    if name.len() != word.len() {
        return false;
    }
    let mut i: usize = 0;
    while i < name.len()
        invariant
            name@.len() == word@.len(),
            i <= name@.len(),
            forall|k: int| 0 <= k < i ==> ascii_lower(#[trigger] name@[k]) == word@[k],
        decreases name@.len() - i,
    {
        let b = name[i];
        let lower: u8 = if 0x41 <= b && b <= 0x5a { b + 0x20 } else { b };
        if lower != word[i] {
            return false;
        }
        i = i + 1;
    }
    true
}

/// The command that `request` names, if it names one.
pub fn parse_command(request: &Value) -> (r: Option<Command>)
    ensures
        r == command_of(request.model()),
{
    let name: &[u8] = match request {
        Value::Array(items) => {
            if items.len() == 0 {
                return None;
            }
            assert(request.model()->Array_0[0] == items@[0].model());
            match &items[0] {
                Value::SimpleString(s) => s.as_str().as_bytes(),
                _ => {
                    return None;
                },
            }
        },
        _ => {
            return None;
        },
    };
    let ping: Vec<u8> = vec![0x70u8, 0x69, 0x6e, 0x67];
    let command: Vec<u8> = vec![0x63u8, 0x6f, 0x6d, 0x6d, 0x61, 0x6e, 0x64];
    assert(ping@ =~= ping_word());
    assert(command@ =~= command_word());
    if names_word(name, &ping) {
        Some(Command::Ping)
    } else if names_word(name, &command) {
        Some(Command::Command)
    } else {
        None
    }
}

fn bulk(s: &str) -> (r: Value)
    ensures
        r.model() == ValueModel::BulkString(encode_utf8(s@)),
{
    let bytes = s.as_bytes();
    let mut out: Vec<u8> = Vec::new();
    let mut i: usize = 0;
    while i < bytes.len()
        invariant
            i <= bytes@.len(),
            out@ == bytes@.subrange(0, i as int),
        decreases bytes@.len() - i,
    {
        out.push(bytes[i]);
        i = i + 1;
        assert(out@ =~= bytes@.subrange(0, i as int));
    }
    assert(bytes@.subrange(0, i as int) =~= bytes@);
    Value::BulkString(out)
}

fn command_reply() -> (r: Value)
    ensures
        r.model() == command_reply_model(),
{
    let fast = bulk("fast");
    let flags: Vec<Value> = vec![fast];
    let flags_value = Value::Array(flags);
    assert(flags_value.model()->Array_0 =~= seq![ValueModel::BulkString(encode_utf8("fast"@))]);
    let (k0, v0) = (bulk("name"), bulk("ping"));
    let (k1, v1) = (bulk("arity"), Value::Integer(1));
    let (k2, v2) = (bulk("flags"), flags_value);
    let (k3, v3) = (bulk("first-key"), Value::Integer(0));
    let (k4, v4) = (bulk("last-key"), Value::Integer(0));
    let (k5, v5) = (bulk("step"), Value::Integer(0));
    let ghost expected = seq![(k0, v0), (k1, v1), (k2, v2), (k3, v3), (k4, v4), (k5, v5)];
    let pairs: Vec<(Value, Value)> = vec![(k0, v0), (k1, v1), (k2, v2), (k3, v3), (k4, v4), (k5, v5)];
    assert(pairs@ == expected);
    let map = Value::RespMap(pairs);
    assert(map.model() == command_reply_model()->Array_0[0]) by {
        assert(map.model()->RespMap_0 =~= pair_models(expected));
        assert(pair_models(expected) =~= command_reply_model()->Array_0[0]->RespMap_0);
    }
    let r = Value::Array(vec![map]);
    assert(r.model()->Array_0 =~= command_reply_model()->Array_0);
    r
}

/// Answers one request.
pub fn dispatch(request: &Value) -> (r: Value)
    ensures
        r.model() == reply_model(request.model()),
{
    match parse_command(request) {
        Some(Command::Ping) => Value::SimpleString("pong".to_owned()),
        Some(Command::Command) => command_reply(),
        None => Value::SimpleError("ERR unknown command".to_owned()),
    }
}

/// What a server does with the bytes a peer has sent so far.
#[derive(Debug)]
pub enum Step {
    /// Send `reply`; the request took the first `used` bytes.
    Reply { reply: Vec<u8>, used: usize },
    /// The request is not complete yet: read more bytes.
    NeedMore,
    /// The bytes are not a request: give up on the peer.
    Fail(DecodeError),
}

/// Decodes one request from the start of `input`, with containers nested at
/// most `max_depth` levels, and answers it.
pub fn respond(input: &[u8], max_depth: usize) -> (r: Step)
    ensures
        match parse_value(input@, 0, max_depth as nat) {
            Ok((request, end)) => match r {
                Step::Reply { reply, used } => reply@ == encode_model(reply_model(request)) && used == end,
                _ => false,
            },
            Err(DecodeError::TruncatedInput) => r is NeedMore,
            Err(e) => r == Step::Fail(e),
        },
{
    match decode_prefix(input, max_depth) {
        Ok((request, used)) => {
            let reply = dispatch(&request).encode();
            Step::Reply { reply, used }
        },
        Err(DecodeError::TruncatedInput) => Step::NeedMore,
        Err(e) => Step::Fail(e),
    }
}

} // verus!
