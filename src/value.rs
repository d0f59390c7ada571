use vstd::prelude::*;
use crate::decimal::fits_i64;

verus! {

/// One protocol value: a closed set of variants, each with its payload.
#[derive(Debug, PartialEq)]
pub enum Value {
    /// The null bulk string, `$-1`.
    Null,
    /// The null array, `*-1`.
    NullArray,
    /// Single-line text, tag `+`.
    SimpleString(String),
    /// Single-line error text, tag `-`.
    SimpleError(String),
    /// A signed 64-bit integer, tag `:`.
    Integer(i64),
    /// Length-prefixed raw bytes, tag `$`.
    BulkString(Vec<u8>),
    /// Length-prefixed raw error bytes, tag `!`.
    BulkError(Vec<u8>),
    /// Values in order, tag `*`.
    Array(Vec<Value>),
    /// Key/value pairs in order, duplicates kept, tag `%`.
    RespMap(Vec<(Value, Value)>),
    /// Values in the order given, tag `~`.
    RespSet(Vec<Value>),
    /// A boolean, tag `#`.
    Bool(bool),
}

/// The mathematical form of a `Value`: text as characters, payloads and
/// children as sequences.
pub enum ValueModel {
    Null,
    NullArray,
    SimpleString(Seq<char>),
    SimpleError(Seq<char>),
    Integer(int),
    BulkString(Seq<u8>),
    BulkError(Seq<u8>),
    Array(Seq<ValueModel>),
    RespMap(Seq<(ValueModel, ValueModel)>),
    RespSet(Seq<ValueModel>),
    Bool(bool),
}

/// The largest length or count that a header can announce.
pub const I64_MAX: u64 = 0x7fff_ffff_ffff_ffff;

impl Value {
    pub open spec fn model(&self) -> ValueModel
        decreases self,
    {
        match self {
            Value::Null => ValueModel::Null,
            Value::NullArray => ValueModel::NullArray,
            Value::SimpleString(s) => ValueModel::SimpleString(s@),
            Value::SimpleError(s) => ValueModel::SimpleError(s@),
            Value::Integer(i) => ValueModel::Integer(*i as int),
            Value::BulkString(b) => ValueModel::BulkString(b@),
            Value::BulkError(b) => ValueModel::BulkError(b@),
            Value::Array(v) => ValueModel::Array(
                Seq::new(v@.len(), |i: int| if 0 <= i < v@.len() { v@[i].model() } else { ValueModel::Null }),
            ),
            Value::RespMap(v) => ValueModel::RespMap(
                Seq::new(
                    v@.len(),
                    |i: int|
                        if 0 <= i < v@.len() {
                            (v@[i].0.model(), v@[i].1.model())
                        } else {
                            (ValueModel::Null, ValueModel::Null)
                        },
                ),
            ),
            Value::RespSet(v) => ValueModel::RespSet(
                Seq::new(v@.len(), |i: int| if 0 <= i < v@.len() { v@[i].model() } else { ValueModel::Null }),
            ),
            Value::Bool(b) => ValueModel::Bool(*b),
        }
    }
}

/// Text that a simple string or simple error may carry: no CR and no LF.
pub open spec fn single_line(s: Seq<char>) -> bool {
    forall|i: int| 0 <= i < s.len() ==> s[i] != '\r' && s[i] != '\n'
}

/// A value that the protocol can carry: single-line simple text, a 64-bit
/// integer, and every length and count within what a header can announce.
pub open spec fn wf_model(m: ValueModel) -> bool
    decreases m,
{
    match m {
        ValueModel::SimpleString(s) => single_line(s),
        ValueModel::SimpleError(s) => single_line(s),
        ValueModel::Integer(i) => fits_i64(i),
        ValueModel::BulkString(b) => b.len() <= I64_MAX,
        ValueModel::BulkError(b) => b.len() <= I64_MAX,
        ValueModel::Array(items) => items.len() <= I64_MAX && wf_items(items),
        ValueModel::RespSet(items) => items.len() <= I64_MAX && wf_items(items),
        ValueModel::RespMap(pairs) => pairs.len() <= I64_MAX && wf_pairs(pairs),
        _ => true,
    }
}

/// Every value of the sequence can be carried.
pub open spec fn wf_items(items: Seq<ValueModel>) -> bool
    decreases items,
{
    items.len() > 0 ==> wf_model(items[0]) && wf_items(items.subrange(1, items.len() as int))
}

/// Every key and every value of the sequence can be carried.
pub open spec fn wf_pairs(pairs: Seq<(ValueModel, ValueModel)>) -> bool
    decreases pairs,
{
    pairs.len() > 0 ==> wf_model(pairs[0].0) && wf_model(pairs[0].1) && wf_pairs(
        pairs.subrange(1, pairs.len() as int),
    )
}

/// How many container levels a value nests: zero for a scalar.
pub open spec fn depth_model(m: ValueModel) -> nat
    decreases m,
{
    match m {
        ValueModel::Array(items) => 1 + depth_items(items),
        ValueModel::RespSet(items) => 1 + depth_items(items),
        ValueModel::RespMap(pairs) => 1 + depth_pairs(pairs),
        _ => 0,
    }
}

/// The deepest nesting among a sequence of values.
pub open spec fn depth_items(items: Seq<ValueModel>) -> nat
    decreases items,
{
    if items.len() == 0 {
        0
    } else {
        let d = depth_model(items[0]);
        let r = depth_items(items.subrange(1, items.len() as int));
        if d >= r { d } else { r }
    }
}

/// The deepest nesting among the keys and values of a sequence of pairs.
pub open spec fn depth_pairs(pairs: Seq<(ValueModel, ValueModel)>) -> nat
    decreases pairs,
{
    if pairs.len() == 0 {
        0
    } else {
        let k = depth_model(pairs[0].0);
        let v = depth_model(pairs[0].1);
        let r = depth_pairs(pairs.subrange(1, pairs.len() as int));
        let kv = if k >= v { k } else { v };
        if kv >= r { kv } else { r }
    }
}

} // verus!
