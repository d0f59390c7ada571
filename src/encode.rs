use vstd::prelude::*;
use vstd::utf8::encode_utf8;
use crate::value::{Value, ValueModel};
use crate::decimal::{nat_text, int_text, push_nat_text, push_int_text};

verus! {

pub open spec fn crlf() -> Seq<u8> {
    seq![0x0du8, 0x0au8]
}

/// A header line: the type tag, the header body, then CR LF.
pub open spec fn header(tag: u8, body: Seq<u8>) -> Seq<u8> {
    seq![tag] + body + crlf()
}

/// The wire form of a value.
pub open spec fn encode_model(m: ValueModel) -> Seq<u8>
    decreases m,
{
    match m {
        ValueModel::Null => header(0x24, int_text(-1)),
        ValueModel::NullArray => header(0x2a, int_text(-1)),
        ValueModel::SimpleString(s) => header(0x2b, encode_utf8(s)),
        ValueModel::SimpleError(s) => header(0x2d, encode_utf8(s)),
        ValueModel::Integer(i) => header(0x3a, int_text(i)),
        ValueModel::BulkString(b) => header(0x24, nat_text(b.len())) + b + crlf(),
        ValueModel::BulkError(b) => header(0x21, nat_text(b.len())) + b + crlf(),
        ValueModel::Array(items) => header(0x2a, nat_text(items.len())) + encode_items(items),
        ValueModel::RespMap(pairs) => header(0x25, nat_text(pairs.len())) + encode_pairs(pairs),
        ValueModel::RespSet(items) => header(0x7e, nat_text(items.len())) + encode_items(items),
        ValueModel::Bool(b) => header(0x23, seq![if b { 0x74u8 } else { 0x66u8 }]),
    }
}

/// The wire forms of a sequence of values, one after another, in order.
pub open spec fn encode_items(items: Seq<ValueModel>) -> Seq<u8>
    decreases items,
{
    if items.len() == 0 {
        Seq::empty()
    } else {
        let n = items.len() - 1;
        encode_items(items.subrange(0, n)) + encode_model(items[n])
    }
}

/// For each pair in order, the wire form of its key, then that of its value.
pub open spec fn encode_pairs(pairs: Seq<(ValueModel, ValueModel)>) -> Seq<u8>
    decreases pairs,
{
    if pairs.len() == 0 {
        Seq::empty()
    } else {
        let n = pairs.len() - 1;
        encode_pairs(pairs.subrange(0, n)) + encode_model(pairs[n].0) + encode_model(pairs[n].1)
    }
}

pub open spec fn models(v: Seq<Value>) -> Seq<ValueModel> {
    Seq::new(v.len(), |i: int| v[i].model())
}

pub open spec fn pair_models(v: Seq<(Value, Value)>) -> Seq<(ValueModel, ValueModel)> {
    Seq::new(v.len(), |i: int| (v[i].0.model(), v[i].1.model()))
}

fn push_bytes(out: &mut Vec<u8>, bytes: &[u8])
    ensures
        final(out)@ == old(out)@ + bytes@,
{
    let mut i: usize = 0;
    while i < bytes.len()
        invariant
            i <= bytes@.len(),
            out@ == old(out)@ + bytes@.subrange(0, i as int),
        decreases bytes@.len() - i,
    {
        out.push(bytes[i]);
        i = i + 1;
        assert(out@ =~= old(out)@ + bytes@.subrange(0, i as int));
    }
    assert(bytes@.subrange(0, i as int) =~= bytes@);
}

fn push_crlf(out: &mut Vec<u8>)
    ensures
        final(out)@ == old(out)@ + crlf(),
{
    out.push(0x0du8);
    out.push(0x0au8);
    assert(final(out)@ =~= old(out)@ + crlf());
}

fn push_header_count(out: &mut Vec<u8>, tag: u8, n: usize)
    ensures
        final(out)@ == old(out)@ + header(tag, nat_text(n as nat)),
{
    out.push(tag);
    push_nat_text(out, n as u64);
    push_crlf(out);
    assert(final(out)@ =~= old(out)@ + header(tag, nat_text(n as nat)));
}

fn push_text_line(out: &mut Vec<u8>, tag: u8, s: &String)
    ensures
        final(out)@ == old(out)@ + header(tag, encode_utf8(s@)),
{
    out.push(tag);
    push_bytes(out, s.as_str().as_bytes());
    push_crlf(out);
    assert(final(out)@ =~= old(out)@ + header(tag, encode_utf8(s@)));
}

fn push_bulk(out: &mut Vec<u8>, tag: u8, b: &Vec<u8>)
    ensures
        final(out)@ == old(out)@ + header(tag, nat_text(b@.len())) + b@ + crlf(),
{
    push_header_count(out, tag, b.len());
    push_bytes(out, b.as_slice());
    push_crlf(out);
    assert(final(out)@ =~= old(out)@ + header(tag, nat_text(b@.len())) + b@ + crlf());
}

fn encode_items_into(items: &Vec<Value>, out: &mut Vec<u8>)
    ensures
        final(out)@ == old(out)@ + encode_items(models(items@)),
    decreases items,
{
    let mut i: usize = 0;
    while i < items.len()
        invariant
            i <= items@.len(),
            out@ == old(out)@ + encode_items(models(items@).subrange(0, i as int)),
        decreases items@.len() - i,
    {
        let ghost before = out@;
        items[i].encode_into(out);
        proof {
            let ms = models(items@);
            assert(ms.subrange(0, i + 1).subrange(0, i as int) =~= ms.subrange(0, i as int));
            assert(out@ =~= old(out)@ + encode_items(ms.subrange(0, i + 1)));
        }
        i = i + 1;
    }
    assert(models(items@).subrange(0, i as int) =~= models(items@));
}

fn encode_pairs_into(pairs: &Vec<(Value, Value)>, out: &mut Vec<u8>)
    ensures
        final(out)@ == old(out)@ + encode_pairs(pair_models(pairs@)),
    decreases pairs,
{
    let mut i: usize = 0;
    while i < pairs.len()
        invariant
            i <= pairs@.len(),
            out@ == old(out)@ + encode_pairs(pair_models(pairs@).subrange(0, i as int)),
        decreases pairs@.len() - i,
    {
        let pair = &pairs[i];
        assert(decreases_to!(pairs => pairs@[i as int].0));
        pair.0.encode_into(out);
        assert(decreases_to!(pairs => pairs@[i as int].1));
        pair.1.encode_into(out);
        proof {
            let ms = pair_models(pairs@);
            assert(ms.subrange(0, i + 1).subrange(0, i as int) =~= ms.subrange(0, i as int));
            assert(out@ =~= old(out)@ + encode_pairs(ms.subrange(0, i + 1)));
        }
        i = i + 1;
    }
    assert(pair_models(pairs@).subrange(0, i as int) =~= pair_models(pairs@));
}

impl Value {
    /// The wire form of this value.
    pub fn encode(&self) -> (r: Vec<u8>)
        ensures
            r@ == encode_model(self.model()),
    {
        let mut out: Vec<u8> = Vec::new();
        self.encode_into(&mut out);
        assert(out@ =~= encode_model(self.model()));
        out
    }

    /// Appends the wire form of this value to `out`.
    pub fn encode_into(&self, out: &mut Vec<u8>)
        ensures
            final(out)@ == old(out)@ + encode_model(self.model()),
        decreases self,
    {
        match self {
            Value::Null => {
                out.push(0x24u8);
                push_int_text(out, -1);
                push_crlf(out);
            },
            Value::NullArray => {
                out.push(0x2au8);
                push_int_text(out, -1);
                push_crlf(out);
            },
            Value::SimpleString(s) => push_text_line(out, 0x2bu8, s),
            Value::SimpleError(s) => push_text_line(out, 0x2du8, s),
            Value::Integer(i) => {
                out.push(0x3au8);
                push_int_text(out, *i);
                push_crlf(out);
            },
            Value::BulkString(b) => push_bulk(out, 0x24u8, b),
            Value::BulkError(b) => push_bulk(out, 0x21u8, b),
            Value::Array(items) => {
                push_header_count(out, 0x2au8, items.len());
                encode_items_into(items, out);
                assert(models(items@) =~= self.model()->Array_0);
            },
            Value::RespMap(pairs) => {
                push_header_count(out, 0x25u8, pairs.len());
                encode_pairs_into(pairs, out);
                assert(pair_models(pairs@) =~= self.model()->RespMap_0);
            },
            Value::RespSet(items) => {
                push_header_count(out, 0x7eu8, items.len());
                encode_items_into(items, out);
                assert(models(items@) =~= self.model()->RespSet_0);
            },
            Value::Bool(b) => {
                out.push(0x23u8);
                out.push(if *b { 0x74u8 } else { 0x66u8 });
                push_crlf(out);
            },
        }
        assert(final(out)@ =~= old(out)@ + encode_model(self.model()));
    }
}

} // verus!
