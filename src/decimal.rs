use vstd::prelude::*;
use crate::value::I64_MAX;

verus! {

pub open spec fn is_digit(b: u8) -> bool {
    0x30 <= b <= 0x39
}

pub open spec fn all_digits(s: Seq<u8>) -> bool {
    forall|i: int| 0 <= i < s.len() ==> is_digit(#[trigger] s[i])
}

/// The number that a run of decimal digits denotes.
pub open spec fn digits_value(s: Seq<u8>) -> nat
    decreases s.len(),
{
    if s.len() == 0 {
        0
    } else {
        digits_value(s.drop_last()) * 10 + (s.last() - 0x30) as nat
    }
}

/// Decimal digits of `n`, most significant first, without leading zeros.
pub open spec fn nat_text(n: nat) -> Seq<u8>
    decreases n,
{
    if n < 10 {
        seq![(0x30 + n) as u8]
    } else {
        nat_text(n / 10).push((0x30 + n % 10) as u8)
    }
}

/// Decimal form of `i`: a minus sign only when negative, then its digits.
pub open spec fn int_text(i: int) -> Seq<u8> {
    if i < 0 {
        seq![0x2du8] + nat_text((-i) as nat)
    } else {
        nat_text(i as nat)
    }
}

/// What a header body denotes as an integer: an optional single leading
/// minus, then one or more ASCII digits; nothing else is accepted.
pub open spec fn parse_int(s: Seq<u8>) -> Option<int> {
    if s.len() > 0 && s[0] == 0x2du8 {
        let d = s.subrange(1, s.len() as int);
        if d.len() > 0 && all_digits(d) {
            Some(-digits_value(d))
        } else {
            None
        }
    } else if s.len() > 0 && all_digits(s) {
        Some(digits_value(s) as int)
    } else {
        None
    }
}

pub open spec fn fits_i64(i: int) -> bool {
    -(I64_MAX as int) - 1 <= i <= I64_MAX as int
}

/// Appends the decimal digits of `n`.
pub fn push_nat_text(out: &mut Vec<u8>, n: u64)
    ensures
        final(out)@ == old(out)@ + nat_text(n as nat),
    decreases n,
{
    if n >= 10 {
        push_nat_text(out, n / 10);
    }
    out.push(0x30u8 + (n % 10) as u8);
    assert(final(out)@ =~= old(out)@ + nat_text(n as nat));
}

/// Appends the decimal form of `i`.
pub fn push_int_text(out: &mut Vec<u8>, i: i64)
    ensures
        final(out)@ == old(out)@ + int_text(i as int),
{
    if i < 0 {
        out.push(0x2du8);
        let magnitude: u64 = (-(i + 1)) as u64 + 1;
        push_nat_text(out, magnitude);
        assert(final(out)@ =~= old(out)@ + int_text(i as int));
    } else {
        push_nat_text(out, i as u64);
    }
}

proof fn lemma_digits_value_push(s: Seq<u8>, b: u8)
    ensures
        digits_value(s.push(b)) == digits_value(s) * 10 + (b - 0x30) as nat,
{
    assert(s.push(b).drop_last() =~= s);
}

/// Reads `s[start..end]` as an integer, or `None` where `parse_int` has none
/// or it does not fit in 64 bits.
pub fn parse_i64(s: &[u8], start: usize, end: usize) -> (r: Option<i64>)
    requires
        start <= end <= s@.len(),
    ensures
        ({
            let p = parse_int(s@.subrange(start as int, end as int));
            match r {
                Some(v) => p == Some(v as int),
                None => p is None || !fits_i64(p->0),
            }
        }),
{
    let negative = start < end && s[start] == 0x2du8;
    let first: usize = if negative { start + 1 } else { start };
    if first == end {
        return None;
    }
    // one past the largest magnitude of an i64
    let cap: u64 = I64_MAX + 2;
    let mut acc: u64 = 0;
    let mut j: usize = first;
    while j < end
        invariant
            first <= j <= end <= s@.len(),
            first == if negative { start + 1 } else { start as int },
            negative == (start < end && s@[start as int] == 0x2du8),
            cap == I64_MAX + 2,
            all_digits(s@.subrange(first as int, j as int)),
            acc as int == if digits_value(s@.subrange(first as int, j as int)) < cap {
                digits_value(s@.subrange(first as int, j as int)) as int
            } else {
                cap as int
            },
        decreases end - j,
    {
        let b = s[j];
        if b < 0x30 || b > 0x39 {
            proof {
                let d = s@.subrange(first as int, end as int);
                assert(d[j - first] == b);
                assert(!all_digits(d));
                if !negative {
                    assert(s@.subrange(start as int, end as int) =~= d);
                } else {
                    assert(s@.subrange(start as int, end as int).subrange(1, end - start) =~= d);
                }
            }
            return None;
        }
        proof {
            let pre = s@.subrange(first as int, j as int);
            assert(s@.subrange(first as int, j + 1) =~= pre.push(b));
            lemma_digits_value_push(pre, b);
        }
        let d: u64 = (b - 0x30) as u64;
        if acc > 922_337_203_685_477_580 {
            acc = cap;
        } else {
            let next: u64 = acc * 10 + d;
            acc = if next >= cap { cap } else { next };
        }
        j = j + 1;
    }
    proof {
        let d = s@.subrange(first as int, end as int);
        if negative {
            assert(s@.subrange(start as int, end as int).subrange(1, end - start) =~= d);
            assert(s@.subrange(start as int, end as int)[0] == 0x2du8);
        } else {
            assert(s@.subrange(start as int, end as int) =~= d);
            if d.len() > 0 && d[0] == 0x2du8 {
                assert(is_digit(d[0]));
            }
        }
    }
    if negative {
        if acc >= cap {
            None
        } else if acc == I64_MAX + 1 {
            Some(-(I64_MAX as i64) - 1)
        } else {
            Some(-(acc as i64))
        }
    } else {
        if acc > I64_MAX {
            None
        } else {
            Some(acc as i64)
        }
    }
}

pub proof fn lemma_nat_text_digits(n: nat)
    ensures
        all_digits(nat_text(n)),
        nat_text(n).len() > 0,
        digits_value(nat_text(n)) == n,
    decreases n,
{
    if n >= 10 {
        lemma_nat_text_digits(n / 10);
        let t = nat_text(n / 10);
        lemma_digits_value_push(t, (0x30 + n % 10) as u8);
        assert((n / 10) * 10 + n % 10 == n) by (nonlinear_arith);
        assert(nat_text(n) == t.push((0x30 + n % 10) as u8));
        assert forall|i: int| 0 <= i < nat_text(n).len() implies is_digit(#[trigger] nat_text(n)[i]) by {
            if i < t.len() {
                assert(is_digit(t[i]));
            }
        }
    } else {
        let t = nat_text(n);
        assert(t.drop_last() =~= Seq::<u8>::empty());
        assert(digits_value(t.drop_last()) == 0);
        assert(t.last() == (0x30 + n) as u8);
    }
}

/// The decimal form of an integer reads back as that integer.
pub proof fn lemma_parse_int_text(i: int)
    ensures
        parse_int(int_text(i)) == Some(i),
{
    if i < 0 {
        let n = (-i) as nat;
        lemma_nat_text_digits(n);
        let t = int_text(i);
        assert(t.subrange(1, t.len() as int) =~= nat_text(n));
    } else {
        lemma_nat_text_digits(i as nat);
        assert(is_digit(nat_text(i as nat)[0]));
    }
}

/// Decimal text never holds a line feed or a carriage return.
pub proof fn lemma_int_text_no_newline(i: int)
    ensures
        forall|k: int| 0 <= k < int_text(i).len() ==> #[trigger] int_text(i)[k] != 0x0au8 && int_text(i)[k] != 0x0du8,
{
    if i < 0 {
        lemma_nat_text_digits((-i) as nat);
        assert forall|k: int| 0 <= k < int_text(i).len() implies #[trigger] int_text(i)[k] != 0x0au8 && int_text(i)[k] != 0x0du8 by {
            if k > 0 {
                assert(int_text(i)[k] == nat_text((-i) as nat)[k - 1]);
            }
        }
    } else {
        lemma_nat_text_digits(i as nat);
    }
}

} // verus!
