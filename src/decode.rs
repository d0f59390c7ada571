use vstd::prelude::*;
use vstd::utf8::{valid_utf8, decode_utf8};
use crate::value::{Value, ValueModel, I64_MAX};
use crate::decimal::{parse_int, fits_i64, parse_i64};
use crate::encode::{models, pair_models};

verus! {

/// Why a protocol unit could not be decoded.
#[derive(Debug, Clone, Copy, PartialEq, Eq, Structural)]
pub enum DecodeError {
    /// The input ended inside the unit.
    TruncatedInput,
    /// A header line is shorter than a tag and CR LF, or does not end in CR LF.
    MalformedLine,
    /// Simple text that is not UTF-8.
    InvalidEncoding,
    /// An integer, length or count that is malformed or out of range.
    InvalidInteger,
    /// A boolean whose body is neither `t` nor `f`.
    InvalidBoolean,
    /// A bulk payload not followed by CR LF.
    InvalidTerminator,
    /// A tag byte that names no type.
    UnknownType { tag: u8 },
    /// Containers nested deeper than the caller allowed.
    DepthExceeded,
}

/// The index of the first line feed at or after `pos`.
pub open spec fn find_lf(b: Seq<u8>, pos: int) -> Option<int>
    decreases b.len() - pos,
{
    if pos < 0 || pos >= b.len() {
        None
    } else if b[pos] == 0x0au8 {
        Some(pos)
    } else {
        find_lf(b, pos + 1)
    }
}

/// The header line at `pos`: its tag, where its body ends (the body starts
/// right after the tag), and where the next line starts.
pub open spec fn read_header(b: Seq<u8>, pos: int) -> Result<(u8, int, int), DecodeError> {
    if pos < 0 || pos >= b.len() {
        Err(DecodeError::TruncatedInput)
    } else {
        match find_lf(b, pos) {
            None => Err(DecodeError::TruncatedInput),
            Some(lf) => if lf + 1 - pos < 3 || b[lf - 1] != 0x0du8 {
                Err(DecodeError::MalformedLine)
            } else {
                Ok((b[pos], lf - 1, lf + 1))
            },
        }
    }
}

/// The length or count that a header body announces, where it is in range.
pub open spec fn size_of(body: Seq<u8>) -> Option<int> {
    let p = parse_int(body);
    if p is Some && 0 <= p->0 <= I64_MAX {
        p
    } else {
        None
    }
}

/// The one value whose wire form starts at `pos`, and where that form ends;
/// containers may nest `depth` levels.
pub open spec fn parse_value(b: Seq<u8>, pos: int, depth: nat) -> Result<(ValueModel, int), DecodeError>
    decreases depth, 0nat, 0nat,
{
    match read_header(b, pos) {
        Err(e) => Err(e),
        Ok((tag, body_end, next)) => {
            let body = b.subrange(pos + 1, body_end);
            if tag == 0x2bu8 || tag == 0x2du8 {
                if valid_utf8(body) {
                    let s = decode_utf8(body);
                    Ok((if tag == 0x2bu8 { ValueModel::SimpleString(s) } else { ValueModel::SimpleError(s) }, next))
                } else {
                    Err(DecodeError::InvalidEncoding)
                }
            } else if tag == 0x3au8 {
                let p = parse_int(body);
                if p is Some && fits_i64(p->0) {
                    Ok((ValueModel::Integer(p->0), next))
                } else {
                    Err(DecodeError::InvalidInteger)
                }
            } else if tag == 0x23u8 {
                if body == seq![0x74u8] {
                    Ok((ValueModel::Bool(true), next))
                } else if body == seq![0x66u8] {
                    Ok((ValueModel::Bool(false), next))
                } else {
                    Err(DecodeError::InvalidBoolean)
                }
            } else if tag == 0x24u8 || tag == 0x21u8 {
                if tag == 0x24u8 && parse_int(body) == Some(-1int) {
                    Ok((ValueModel::Null, next))
                } else if size_of(body) is None {
                    Err(DecodeError::InvalidInteger)
                } else {
                    let n = size_of(body)->0;
                    if next + n + 2 > b.len() {
                        Err(DecodeError::TruncatedInput)
                    } else if b[next + n] != 0x0du8 || b[next + n + 1] != 0x0au8 {
                        Err(DecodeError::InvalidTerminator)
                    } else {
                        let payload = b.subrange(next, next + n);
                        Ok((if tag == 0x24u8 { ValueModel::BulkString(payload) } else { ValueModel::BulkError(payload) }, next + n + 2))
                    }
                }
            } else if tag == 0x2au8 || tag == 0x7eu8 || tag == 0x25u8 {
                if tag == 0x2au8 && parse_int(body) == Some(-1int) {
                    Ok((ValueModel::NullArray, next))
                } else if size_of(body) is None {
                    Err(DecodeError::InvalidInteger)
                } else if depth == 0 {
                    Err(DecodeError::DepthExceeded)
                } else {
                    let n = size_of(body)->0 as nat;
                    if tag == 0x25u8 {
                        match parse_pairs(b, next, n, (depth - 1) as nat, Seq::empty()) {
                            Ok((pairs, end)) => Ok((ValueModel::RespMap(pairs), end)),
                            Err(e) => Err(e),
                        }
                    } else {
                        match parse_items(b, next, n, (depth - 1) as nat, Seq::empty()) {
                            Ok((items, end)) => Ok((if tag == 0x2au8 { ValueModel::Array(items) } else { ValueModel::RespSet(items) }, end)),
                            Err(e) => Err(e),
                        }
                    }
                }
            } else {
                Err(DecodeError::UnknownType { tag })
            }
        }
    }
}

/// `k` values decoded one after another from `pos`, appended to `acc`.
pub open spec fn parse_items(b: Seq<u8>, pos: int, k: nat, depth: nat, acc: Seq<ValueModel>) -> Result<(Seq<ValueModel>, int), DecodeError>
    decreases depth, 1nat, k,
{
    if k == 0 {
        Ok((acc, pos))
    } else {
        match parse_value(b, pos, depth) {
            Ok((v, p)) => parse_items(b, p, (k - 1) as nat, depth, acc.push(v)),
            Err(e) => Err(e),
        }
    }
}

/// `k` key/value pairs decoded one after another from `pos`, appended to `acc`.
pub open spec fn parse_pairs(b: Seq<u8>, pos: int, k: nat, depth: nat, acc: Seq<(ValueModel, ValueModel)>) -> Result<(Seq<(ValueModel, ValueModel)>, int), DecodeError>
    decreases depth, 1nat, k,
{
    if k == 0 {
        Ok((acc, pos))
    } else {
        match parse_value(b, pos, depth) {
            Ok((key, p)) => match parse_value(b, p, depth) {
                Ok((val, q)) => parse_pairs(b, q, (k - 1) as nat, depth, acc.push((key, val))),
                Err(e) => Err(e),
            },
            Err(e) => Err(e),
        }
    }
}

/// The value at the start of `b`, with containers nested at most `depth` levels.
pub open spec fn decode_model(b: Seq<u8>, depth: nat) -> Result<ValueModel, DecodeError> {
    match parse_value(b, 0, depth) {
        Ok((v, _)) => Ok(v),
        Err(e) => Err(e),
    }
}

/// Relies on String::from_utf8: it succeeds exactly on valid UTF-8 and then
/// holds the characters that the bytes encode.
#[verifier::external_body]
fn utf8_text(bytes: Vec<u8>) -> (r: Option<String>)
    ensures
        r is Some <==> valid_utf8(bytes@),
        r is Some ==> r->0@ == decode_utf8(bytes@),
{
    String::from_utf8(bytes).ok()
}

fn copy_range(b: &[u8], start: usize, end: usize) -> (r: Vec<u8>)
    requires
        start <= end <= b@.len(),
    ensures
        r@ == b@.subrange(start as int, end as int),
{
    let mut r: Vec<u8> = Vec::new();
    let mut i: usize = start;
    while i < end
        invariant
            start <= i <= end <= b@.len(),
            r@ == b@.subrange(start as int, i as int),
        decreases end - i,
    {
        r.push(b[i]);
        i = i + 1;
        assert(r@ =~= b@.subrange(start as int, i as int));
    }
    r
}

fn find_lf_exec(b: &[u8], pos: usize) -> (r: Option<usize>)
    ensures
        match r {
            Some(i) => find_lf(b@, pos as int) == Some(i as int),
            None => find_lf(b@, pos as int) is None,
        },
{
    let mut i: usize = pos;
    while i < b.len()
        invariant
            pos <= i,
            find_lf(b@, pos as int) == find_lf(b@, i as int),
        decreases b@.len() - i,
    {
        if b[i] == 0x0au8 {
            return Some(i);
        }
        i = i + 1;
    }
    None
}

fn read_header_exec(b: &[u8], pos: usize) -> (r: Result<(u8, usize, usize), DecodeError>)
    ensures
        match r {
            Ok((tag, body_end, next)) => read_header(b@, pos as int) == Ok::<_, DecodeError>((tag, body_end as int, next as int))
                && pos < body_end && next == body_end + 2 && next <= b@.len(),
            Err(e) => read_header(b@, pos as int) == Err::<(u8, int, int), DecodeError>(e),
        },
{
    if pos >= b.len() {
        return Err(DecodeError::TruncatedInput);
    }
    match find_lf_exec(b, pos) {
        None => Err(DecodeError::TruncatedInput),
        Some(lf) => {
            proof {
                lemma_find_lf_bounds(b@, pos as int);
            }
            if lf + 1 - pos < 3 || b[lf - 1] != 0x0du8 {
                Err(DecodeError::MalformedLine)
            } else {
                Ok((b[pos], lf - 1, lf + 1))
            }
        },
    }
}

proof fn lemma_find_lf_bounds(b: Seq<u8>, pos: int)
    ensures
        find_lf(b, pos) is Some ==> pos <= find_lf(b, pos)->0 < b.len() && b[find_lf(b, pos)->0] == 0x0au8,
    decreases b.len() - pos,
{
    if 0 <= pos < b.len() && b[pos] != 0x0au8 {
        lemma_find_lf_bounds(b, pos + 1);
    }
}

fn decode_value(b: &[u8], pos: usize, depth: usize) -> (r: Result<(Value, usize), DecodeError>)
    ensures
        match r {
            Ok((v, end)) => parse_value(b@, pos as int, depth as nat) == Ok::<_, DecodeError>((v.model(), end as int)) && pos < end <= b@.len(),
            Err(e) => parse_value(b@, pos as int, depth as nat) == Err::<(ValueModel, int), DecodeError>(e),
        },
    decreases depth, 0nat, 0nat,
{
    let (tag, body_end, next) = match read_header_exec(b, pos) {
        Ok(h) => h,
        Err(e) => return Err(e),
    };
    let ghost body = b@.subrange(pos + 1, body_end as int);
    if tag == 0x2bu8 || tag == 0x2du8 {
        match utf8_text(copy_range(b, pos + 1, body_end)) {
            Some(s) => {
                let v = if tag == 0x2bu8 { Value::SimpleString(s) } else { Value::SimpleError(s) };
                Ok((v, next))
            },
            None => Err(DecodeError::InvalidEncoding),
        }
    } else if tag == 0x3au8 {
        match parse_i64(b, pos + 1, body_end) {
            Some(i) => Ok((Value::Integer(i), next)),
            None => Err(DecodeError::InvalidInteger),
        }
    } else if tag == 0x23u8 {
        if body_end == pos + 2 && b[pos + 1] == 0x74u8 {
            assert(body =~= seq![0x74u8]);
            Ok((Value::Bool(true), next))
        } else if body_end == pos + 2 && b[pos + 1] == 0x66u8 {
            assert(body =~= seq![0x66u8]);
            Ok((Value::Bool(false), next))
        } else {
            assert(body != seq![0x74u8] && body != seq![0x66u8]) by {
                if body_end == pos + 2 {
                    assert(body[0] == b@[pos + 1]);
                } else {
                    assert(body.len() != 1);
                }
            }
            Err(DecodeError::InvalidBoolean)
        }
    } else if tag == 0x24u8 || tag == 0x21u8 {
        let n: usize = match parse_i64(b, pos + 1, body_end) {
            Some(n) => {
                if tag == 0x24u8 && n == -1 {
                    return Ok((Value::Null, next));
                }
                if n < 0 {
                    return Err(DecodeError::InvalidInteger);
                }
                let remaining: usize = b.len() - next;
                if n as u64 > remaining as u64 || remaining - (n as usize) < 2 {
                    return Err(DecodeError::TruncatedInput);
                }
                n as usize
            },
            None => {
                return Err(DecodeError::InvalidInteger);
            },
        };
        if b[next + n] != 0x0du8 || b[next + n + 1] != 0x0au8 {
            return Err(DecodeError::InvalidTerminator);
        }
        let payload = copy_range(b, next, next + n);
        let v = if tag == 0x24u8 { Value::BulkString(payload) } else { Value::BulkError(payload) };
        Ok((v, next + n + 2))
    } else if tag == 0x2au8 || tag == 0x7eu8 || tag == 0x25u8 {
        let n: u64 = match parse_i64(b, pos + 1, body_end) {
            Some(n) => {
                if tag == 0x2au8 && n == -1 {
                    return Ok((Value::NullArray, next));
                }
                if n < 0 {
                    return Err(DecodeError::InvalidInteger);
                }
                n as u64
            },
            None => {
                return Err(DecodeError::InvalidInteger);
            },
        };
        if depth == 0 {
            return Err(DecodeError::DepthExceeded);
        }
        if tag == 0x25u8 {
            match decode_pairs(b, next, n, depth - 1) {
                Ok((pairs, end)) => {
                    let v = Value::RespMap(pairs);
                    assert(v.model() == ValueModel::RespMap(pair_models(pairs@))) by {
                        assert(v.model()->RespMap_0 =~= pair_models(pairs@));
                    }
                    Ok((v, end))
                },
                Err(e) => Err(e),
            }
        } else {
            match decode_items(b, next, n, depth - 1) {
                Ok((items, end)) => {
                    let v = if tag == 0x2au8 { Value::Array(items) } else { Value::RespSet(items) };
                    assert(v.model() == if tag == 0x2au8 {
                        ValueModel::Array(models(items@))
                    } else {
                        ValueModel::RespSet(models(items@))
                    }) by {
                        if tag == 0x2au8 {
                            assert(v.model()->Array_0 =~= models(items@));
                        } else {
                            assert(v.model()->RespSet_0 =~= models(items@));
                        }
                    }
                    Ok((v, end))
                },
                Err(e) => Err(e),
            }
        }
    } else {
        Err(DecodeError::UnknownType { tag })
    }
}

fn decode_items(b: &[u8], pos: usize, n: u64, depth: usize) -> (r: Result<(Vec<Value>, usize), DecodeError>)
    requires
        pos <= b@.len(),
    ensures
        match r {
            Ok((items, end)) => parse_items(b@, pos as int, n as nat, depth as nat, Seq::empty())
                == Ok::<_, DecodeError>((models(items@), end as int)) && pos <= end <= b@.len(),
            Err(e) => parse_items(b@, pos as int, n as nat, depth as nat, Seq::empty())
                == Err::<(Seq<ValueModel>, int), DecodeError>(e),
        },
    decreases depth, 1nat, 0nat,
{
    let mut items: Vec<Value> = Vec::new();
    let mut p: usize = pos;
    let mut i: u64 = 0;
    assert(models(items@) =~= Seq::<ValueModel>::empty());
    while i < n
        invariant
            i <= n,
            pos <= p <= b@.len(),
            parse_items(b@, pos as int, n as nat, depth as nat, Seq::empty())
                == parse_items(b@, p as int, (n - i) as nat, depth as nat, models(items@)),
        decreases n - i,
    {
        match decode_value(b, p, depth) {
            Ok((v, end)) => {
                let ghost before = models(items@);
                items.push(v);
                assert(models(items@) =~= before.push(v.model()));
                p = end;
            },
            Err(e) => {
                return Err(e);
            },
        }
        i = i + 1;
    }
    Ok((items, p))
}

fn decode_pairs(b: &[u8], pos: usize, n: u64, depth: usize) -> (r: Result<(Vec<(Value, Value)>, usize), DecodeError>)
    requires
        pos <= b@.len(),
    ensures
        match r {
            Ok((pairs, end)) => parse_pairs(b@, pos as int, n as nat, depth as nat, Seq::empty())
                == Ok::<_, DecodeError>((pair_models(pairs@), end as int)) && pos <= end <= b@.len(),
            Err(e) => parse_pairs(b@, pos as int, n as nat, depth as nat, Seq::empty())
                == Err::<(Seq<(ValueModel, ValueModel)>, int), DecodeError>(e),
        },
    decreases depth, 1nat, 0nat,
{
    let mut pairs: Vec<(Value, Value)> = Vec::new();
    let mut p: usize = pos;
    let mut i: u64 = 0;
    assert(pair_models(pairs@) =~= Seq::<(ValueModel, ValueModel)>::empty());
    while i < n
        invariant
            i <= n,
            pos <= p <= b@.len(),
            parse_pairs(b@, pos as int, n as nat, depth as nat, Seq::empty())
                == parse_pairs(b@, p as int, (n - i) as nat, depth as nat, pair_models(pairs@)),
        decreases n - i,
    {
        let (key, after_key) = match decode_value(b, p, depth) {
            Ok(kv) => kv,
            Err(e) => {
                return Err(e);
            },
        };
        let (val, after_val) = match decode_value(b, after_key, depth) {
            Ok(vv) => vv,
            Err(e) => {
                return Err(e);
            },
        };
        let ghost before = pair_models(pairs@);
        pairs.push((key, val));
        assert(pair_models(pairs@) =~= before.push((key.model(), val.model())));
        p = after_val;
        i = i + 1;
    }
    Ok((pairs, p))
}

/// Decodes the one protocol unit at the start of `input`, allowing containers
/// to nest at most `max_depth` levels; bytes after that unit are left alone.
pub fn decode(input: &[u8], max_depth: usize) -> (r: Result<Value, DecodeError>)
    ensures
        match r {
            Ok(v) => decode_model(input@, max_depth as nat) == Ok::<ValueModel, DecodeError>(v.model()),
            Err(e) => decode_model(input@, max_depth as nat) == Err::<ValueModel, DecodeError>(e),
        },
{
    match decode_value(input, 0, max_depth) {
        Ok((v, _)) => Ok(v),
        Err(e) => Err(e),
    }
}

/// Like `decode`, and also gives how many bytes the unit took.
pub fn decode_prefix(input: &[u8], max_depth: usize) -> (r: Result<(Value, usize), DecodeError>)
    ensures
        match r {
            Ok((v, used)) => parse_value(input@, 0, max_depth as nat) == Ok::<_, DecodeError>((v.model(), used as int))
                && 0 < used <= input@.len(),
            Err(e) => parse_value(input@, 0, max_depth as nat) == Err::<(ValueModel, int), DecodeError>(e),
        },
{
    decode_value(input, 0, max_depth)
}

} // verus!
