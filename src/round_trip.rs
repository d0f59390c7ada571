use vstd::prelude::*;
use vstd::utf8::{encode_utf8, encode_scalar, encode_utf8_valid_utf8, encode_utf8_decode_utf8, char_is_scalar};
use crate::value::{Value, ValueModel, wf_model, wf_items, wf_pairs, depth_model, depth_items, depth_pairs, I64_MAX};
use crate::decimal::{nat_text, int_text, lemma_parse_int_text, lemma_int_text_no_newline};
use crate::encode::{crlf, header, encode_model, encode_items, encode_pairs};
use crate::decode::{DecodeError, find_lf, read_header, parse_value, parse_items, parse_pairs, decode_model};

verus! {

/// `s` stands in `b` from `pos` on.
pub open spec fn holds_at(b: Seq<u8>, pos: int, s: Seq<u8>) -> bool {
    0 <= pos && pos + s.len() <= b.len() && b.subrange(pos, pos + s.len()) == s
}

pub open spec fn no_lf(s: Seq<u8>) -> bool {
    forall|k: int| 0 <= k < s.len() ==> #[trigger] s[k] != 0x0au8
}

proof fn lemma_holds_split(b: Seq<u8>, pos: int, x: Seq<u8>, y: Seq<u8>)
    requires
        holds_at(b, pos, x + y),
    ensures
        holds_at(b, pos, x),
        holds_at(b, pos + x.len(), y),
{
    let whole = b.subrange(pos, pos + (x + y).len());
    assert(whole == x + y);
    assert forall|k: int| 0 <= k < x.len() implies b.subrange(pos, pos + x.len())[k] == x[k] by {
        assert(whole[k] == (x + y)[k]);
    }
    assert(b.subrange(pos, pos + x.len()) =~= x);
    assert forall|k: int| 0 <= k < y.len() implies b.subrange(pos + x.len(), pos + x.len() + y.len())[k] == y[k] by {
        assert(whole[x.len() + k] == (x + y)[x.len() + k]);
    }
    assert(b.subrange(pos + x.len(), pos + x.len() + y.len()) =~= y);
}

proof fn lemma_find_lf_skips(b: Seq<u8>, from: int, to: int)
    requires
        0 <= from <= to < b.len(),
        b[to] == 0x0au8,
        forall|k: int| from <= k < to ==> #[trigger] b[k] != 0x0au8,
    ensures
        find_lf(b, from) == Some(to),
    decreases to - from,
{
    if from < to {
        lemma_find_lf_skips(b, from + 1, to);
    }
}

proof fn lemma_read_header(b: Seq<u8>, pos: int, tag: u8, body: Seq<u8>)
    requires
        tag != 0x0au8,
        no_lf(body),
        holds_at(b, pos, header(tag, body)),
    ensures
        read_header(b, pos) == Ok::<_, DecodeError>((tag, pos + 1 + body.len(), pos + 3 + body.len())),
        b.subrange(pos + 1, pos + 1 + body.len()) == body,
{
    let h = header(tag, body);
    let lf = pos + 2 + body.len();
    assert(b[lf] == h[h.len() - 1]);
    assert(b[lf - 1] == h[h.len() - 2]);
    assert(b[pos] == h[0]);
    assert forall|k: int| pos <= k < lf implies #[trigger] b[k] != 0x0au8 by {
        assert(b[k] == h[k - pos]);
        if pos < k < lf - 1 {
            assert(h[k - pos] == body[k - pos - 1]);
        }
    }
    lemma_find_lf_skips(b, pos, lf);
    assert(b.subrange(pos + 1, pos + 1 + body.len()) =~= h.subrange(1, 1 + body.len() as int));
    assert(h.subrange(1, 1 + body.len() as int) =~= body);
}

proof fn lemma_or_high_bits(y: u8)
    ensures
        (0x80u8 | y) >= 0x80u8,
        (0xC0u8 | y) >= 0x80u8,
        (0xE0u8 | y) >= 0x80u8,
        (0xF0u8 | y) >= 0x80u8,
{
    assert((0x80u8 | y) >= 0x80u8) by (bit_vector);
    assert((0xC0u8 | y) >= 0x80u8) by (bit_vector);
    assert((0xE0u8 | y) >= 0x80u8) by (bit_vector);
    assert((0xF0u8 | y) >= 0x80u8) by (bit_vector);
}

proof fn lemma_low_bits(c: u32)
    requires
        c <= 0x7f,
    ensures
        (c & 0x7f) == c,
{
    assert((c & 0x7f) == c) by (bit_vector)
        requires
            c <= 0x7f,
    ;
}

/// The UTF-8 form of text without a line feed holds no line feed byte.
proof fn lemma_utf8_no_lf(s: Seq<char>)
    requires
        forall|i: int| 0 <= i < s.len() ==> s[i] != '\n',
    ensures
        no_lf(encode_utf8(s)),
    decreases s.len(),
{
    if s.len() > 0 {
        let rest = s.drop_first();
        lemma_utf8_no_lf(rest);
        let c = s[0] as u32;
        char_is_scalar(s[0]);
        let e = encode_scalar(c);
        assert(no_lf(e)) by {
            assert(s[0] != '\n');
            vstd::utf8::char_u32_cast(s[0], c);
            assert(10u32 as char == '\n');
            if c <= 0x7f {
                lemma_low_bits(c);
                assert(c != 10);
            } else {
                lemma_or_high_bits(((c >> 6) & 0x1F) as u8);
                lemma_or_high_bits(((c >> 12) & 0x0F) as u8);
                lemma_or_high_bits(((c >> 18) & 0x7) as u8);
                lemma_or_high_bits((c & 0x3F) as u8);
                lemma_or_high_bits(((c >> 6) & 0x3F) as u8);
                lemma_or_high_bits(((c >> 12) & 0x3F) as u8);
            }
        }
        let all = encode_utf8(s);
        assert(all == e + encode_utf8(rest));
        assert forall|k: int| 0 <= k < all.len() implies #[trigger] all[k] != 0x0au8 by {
            if k < e.len() {
                assert(all[k] == e[k]);
            } else {
                assert(all[k] == encode_utf8(rest)[k - e.len()]);
            }
        }
    }
}

proof fn lemma_count_header(b: Seq<u8>, pos: int, tag: u8, n: nat)
    requires
        tag != 0x0au8,
        n <= I64_MAX,
        holds_at(b, pos, header(tag, nat_text(n))),
    ensures
        read_header(b, pos) == Ok::<_, DecodeError>((tag, pos + 1 + nat_text(n).len(), pos + 3 + nat_text(n).len())),
        crate::decimal::parse_int(b.subrange(pos + 1, pos + 1 + nat_text(n).len())) == Some(n as int),
        crate::decode::size_of(b.subrange(pos + 1, pos + 1 + nat_text(n).len())) == Some(n as int),
{
    lemma_int_text_no_newline(n as int);
    lemma_parse_int_text(n as int);
    lemma_read_header(b, pos, tag, nat_text(n));
}

proof fn lemma_encode_items_front(items: Seq<ValueModel>)
    requires
        items.len() > 0,
    ensures
        encode_items(items) == encode_model(items[0]) + encode_items(items.subrange(1, items.len() as int)),
    decreases items.len(),
{
    let n = items.len() - 1;
    if n == 0 {
        assert(items.subrange(0, 0) =~= Seq::<ValueModel>::empty());
        assert(items.subrange(1, 1) =~= Seq::<ValueModel>::empty());
        assert(encode_items(Seq::<ValueModel>::empty()) =~= Seq::<u8>::empty());
        assert(encode_items(items) =~= encode_model(items[0]));
    } else {
        let init = items.subrange(0, n);
        lemma_encode_items_front(init);
        let tail = items.subrange(1, items.len() as int);
        assert(tail.subrange(0, tail.len() - 1) =~= init.subrange(1, init.len() as int));
        assert(tail[tail.len() - 1] == items[n]);
        assert(init[0] == items[0]);
        assert(encode_items(items) =~= encode_model(items[0]) + encode_items(tail));
    }
}

proof fn lemma_encode_pairs_front(pairs: Seq<(ValueModel, ValueModel)>)
    requires
        pairs.len() > 0,
    ensures
        encode_pairs(pairs) == encode_model(pairs[0].0) + encode_model(pairs[0].1)
            + encode_pairs(pairs.subrange(1, pairs.len() as int)),
    decreases pairs.len(),
{
    let n = pairs.len() - 1;
    if n == 0 {
        assert(pairs.subrange(0, 0) =~= Seq::<(ValueModel, ValueModel)>::empty());
        assert(pairs.subrange(1, 1) =~= Seq::<(ValueModel, ValueModel)>::empty());
        assert(encode_pairs(Seq::<(ValueModel, ValueModel)>::empty()) =~= Seq::<u8>::empty());
        assert(encode_pairs(pairs) =~= encode_model(pairs[0].0) + encode_model(pairs[0].1));
    } else {
        let init = pairs.subrange(0, n);
        lemma_encode_pairs_front(init);
        let tail = pairs.subrange(1, pairs.len() as int);
        assert(tail.subrange(0, tail.len() - 1) =~= init.subrange(1, init.len() as int));
        assert(tail[tail.len() - 1] == pairs[n]);
        assert(init[0] == pairs[0]);
        assert(encode_pairs(pairs) =~= encode_model(pairs[0].0) + encode_model(pairs[0].1) + encode_pairs(tail));
    }
}

proof fn lemma_parse_encoded(b: Seq<u8>, pos: int, depth: nat, m: ValueModel)
    requires
        wf_model(m),
        depth_model(m) <= depth,
        holds_at(b, pos, encode_model(m)),
    ensures
        parse_value(b, pos, depth) == Ok::<_, DecodeError>((m, pos + encode_model(m).len())),
    decreases m,
{
    let e = encode_model(m);
    match m {
        ValueModel::Null => {
            lemma_int_text_no_newline(-1);
            lemma_parse_int_text(-1);
            lemma_read_header(b, pos, 0x24, int_text(-1));
        },
        ValueModel::NullArray => {
            lemma_int_text_no_newline(-1);
            lemma_parse_int_text(-1);
            lemma_read_header(b, pos, 0x2a, int_text(-1));
        },
        ValueModel::SimpleString(s) => {
            lemma_utf8_no_lf(s);
            lemma_read_header(b, pos, 0x2b, encode_utf8(s));
            encode_utf8_valid_utf8(s);
            encode_utf8_decode_utf8(s);
        },
        ValueModel::SimpleError(s) => {
            lemma_utf8_no_lf(s);
            lemma_read_header(b, pos, 0x2d, encode_utf8(s));
            encode_utf8_valid_utf8(s);
            encode_utf8_decode_utf8(s);
        },
        ValueModel::Integer(i) => {
            lemma_int_text_no_newline(i);
            lemma_parse_int_text(i);
            lemma_read_header(b, pos, 0x3a, int_text(i));
        },
        ValueModel::Bool(v) => {
            let t = seq![if v { 0x74u8 } else { 0x66u8 }];
            lemma_read_header(b, pos, 0x23, t);
        },
        ValueModel::BulkString(bytes) => {
            let h = header(0x24, nat_text(bytes.len()));
            lemma_holds_split(b, pos, h + bytes, crlf());
            lemma_holds_split(b, pos, h, bytes);
            lemma_count_header(b, pos, 0x24, bytes.len());
            let next = pos + h.len();
            assert(b[next + bytes.len()] == crlf()[0]);
            assert(b[next + bytes.len() + 1] == crlf()[1]);
        },
        ValueModel::BulkError(bytes) => {
            let h = header(0x21, nat_text(bytes.len()));
            lemma_holds_split(b, pos, h + bytes, crlf());
            lemma_holds_split(b, pos, h, bytes);
            lemma_count_header(b, pos, 0x21, bytes.len());
            let next = pos + h.len();
            assert(b[next + bytes.len()] == crlf()[0]);
            assert(b[next + bytes.len() + 1] == crlf()[1]);
        },
        ValueModel::Array(items) => {
            let h = header(0x2a, nat_text(items.len()));
            lemma_holds_split(b, pos, h, encode_items(items));
            lemma_count_header(b, pos, 0x2a, items.len());
            lemma_parse_items(b, pos + h.len(), (depth - 1) as nat, items, Seq::empty());
            assert(Seq::<ValueModel>::empty() + items =~= items);
        },
        ValueModel::RespSet(items) => {
            let h = header(0x7e, nat_text(items.len()));
            lemma_holds_split(b, pos, h, encode_items(items));
            lemma_count_header(b, pos, 0x7e, items.len());
            lemma_parse_items(b, pos + h.len(), (depth - 1) as nat, items, Seq::empty());
            assert(Seq::<ValueModel>::empty() + items =~= items);
        },
        ValueModel::RespMap(pairs) => {
            let h = header(0x25, nat_text(pairs.len()));
            lemma_holds_split(b, pos, h, encode_pairs(pairs));
            lemma_count_header(b, pos, 0x25, pairs.len());
            lemma_parse_pairs(b, pos + h.len(), (depth - 1) as nat, pairs, Seq::empty());
            assert(Seq::<(ValueModel, ValueModel)>::empty() + pairs =~= pairs);
        },
    }
}

proof fn lemma_parse_items(b: Seq<u8>, pos: int, depth: nat, items: Seq<ValueModel>, acc: Seq<ValueModel>)
    requires
        wf_items(items),
        depth_items(items) <= depth,
        holds_at(b, pos, encode_items(items)),
    ensures
        parse_items(b, pos, items.len(), depth, acc) == Ok::<_, DecodeError>((acc + items, pos + encode_items(items).len())),
    decreases items,
{
    if items.len() == 0 {
        assert(acc + items =~= acc);
    } else {
        lemma_encode_items_front(items);
        let rest = items.subrange(1, items.len() as int);
        let e0 = encode_model(items[0]);
        lemma_holds_split(b, pos, e0, encode_items(rest));
        lemma_parse_encoded(b, pos, depth, items[0]);
        lemma_parse_items(b, pos + e0.len(), depth, rest, acc.push(items[0]));
        assert(acc.push(items[0]) + rest =~= acc + items);
    }
}

proof fn lemma_parse_pairs(b: Seq<u8>, pos: int, depth: nat, pairs: Seq<(ValueModel, ValueModel)>, acc: Seq<(ValueModel, ValueModel)>)
    requires
        wf_pairs(pairs),
        depth_pairs(pairs) <= depth,
        holds_at(b, pos, encode_pairs(pairs)),
    ensures
        parse_pairs(b, pos, pairs.len(), depth, acc) == Ok::<_, DecodeError>((acc + pairs, pos + encode_pairs(pairs).len())),
    decreases pairs,
{
    if pairs.len() == 0 {
        assert(acc + pairs =~= acc);
    } else {
        lemma_encode_pairs_front(pairs);
        let rest = pairs.subrange(1, pairs.len() as int);
        let ek = encode_model(pairs[0].0);
        let ev = encode_model(pairs[0].1);
        lemma_holds_split(b, pos, ek + ev, encode_pairs(rest));
        lemma_holds_split(b, pos, ek, ev);
        assert(decreases_to!(pairs => pairs[0].0));
        assert(decreases_to!(pairs => pairs[0].1));
        lemma_parse_encoded(b, pos, depth, pairs[0].0);
        lemma_parse_encoded(b, pos + ek.len(), depth, pairs[0].1);
        lemma_parse_pairs(b, pos + ek.len() + ev.len(), depth, rest, acc.push(pairs[0]));
        assert(acc.push(pairs[0]) + rest =~= acc + pairs);
    }
}

/// Round trip: decoding the wire form of a well-formed value, with a nesting
/// allowance that covers its depth, gives that value back and takes exactly
/// its wire form, whatever bytes follow it.
pub proof fn lemma_decode_encode(v: Value, rest: Seq<u8>, max_depth: usize)
    requires
        wf_model(v.model()),
        depth_model(v.model()) <= max_depth,
    ensures
        decode_model(encode_model(v.model()), max_depth as nat) == Ok::<_, DecodeError>(v.model()),
        parse_value(encode_model(v.model()) + rest, 0, max_depth as nat)
            == Ok::<_, DecodeError>((v.model(), encode_model(v.model()).len() as int)),
{
    let e = encode_model(v.model());
    assert(e.subrange(0, e.len() as int) =~= e);
    lemma_parse_encoded(e, 0, max_depth as nat, v.model());
    assert((e + rest).subrange(0, e.len() as int) =~= e);
    lemma_parse_encoded(e + rest, 0, max_depth as nat, v.model());
}

} // verus!
