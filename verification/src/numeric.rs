//! Decimal number parsing and rendering.

use vstd::prelude::*;
use crate::text::{is_digit, push_char};

verus! {

/// Numeric value of a decimal digit character.
pub open spec fn digit_val(c: char) -> nat {
    (c as int - '0' as int) as nat
}

/// All characters are ASCII digits.
pub open spec fn all_digits(s: Seq<char>) -> bool {
    forall|i: int| 0 <= i < s.len() ==> is_digit(#[trigger] s[i])
}

/// Value of a string of decimal digits (most significant first).
pub open spec fn dec_value(s: Seq<char>) -> nat
    decreases s.len(),
{
    if s.len() == 0 {
        0
    } else {
        dec_value(s.drop_last()) * 10 + digit_val(s.last())
    }
}

/// `str::parse` for an unsigned integer type whose maximum is `max`:
/// an optional `'+'` followed by at least one digit, with a value `<= max`.
pub open spec fn parse_unsigned(s: Seq<char>, max: nat) -> Option<nat> {
    let d = if s.len() > 0 && s[0] == '+' {
        s.drop_first()
    } else {
        s
    };
    if d.len() > 0 && all_digits(d) && dec_value(d) <= max {
        Some(dec_value(d))
    } else {
        None
    }
}

proof fn lemma_dec_value_prefix_mono(s: Seq<char>, k: int)
    requires
        0 <= k <= s.len(),
    ensures
        dec_value(s.take(k)) <= dec_value(s),
    decreases s.len() - k,
{
    if k < s.len() {
        lemma_dec_value_prefix_mono(s, k + 1);
        assert(s.take(k + 1).drop_last() =~= s.take(k));
    } else {
        assert(s.take(k) =~= s);
    }
}

/// Parses `v[lo..hi]` as an unsigned decimal number no larger than `max`.
pub fn parse_unsigned_exec(v: &Vec<char>, lo: usize, hi: usize, max: u64) -> (r: Option<u64>)
    requires
        lo <= hi <= v@.len(),
    ensures
        match parse_unsigned(v@.subrange(lo as int, hi as int), max as nat) {
            Some(n) => r == Some(n as u64),
            None => r is None,
        },
{
    let ghost s = v@.subrange(lo as int, hi as int);
    let start = if lo < hi && v[lo] == '+' {
        lo + 1
    } else {
        lo
    };
    let ghost d = v@.subrange(start as int, hi as int);
    proof {
        if lo < hi && v@[lo as int] == '+' {
            assert(s.drop_first() =~= d);
        } else {
            assert(s =~= d);
        }
    }
    if start >= hi {
        return None;
    }
    let mut acc: u64 = 0;
    let mut i = start;
    while i < hi
        invariant
            lo <= start <= i <= hi <= v@.len(),
            start < hi,
            d == v@.subrange(start as int, hi as int),
            s == v@.subrange(lo as int, hi as int),
            d == (if s.len() > 0 && s[0] == '+' { s.drop_first() } else { s }),
            all_digits(d.take(i - start)),
            acc as nat == dec_value(d.take(i - start)),
            acc <= max,
        decreases hi - i,
    {
        let c = v[i];
        if !('0' <= c && c <= '9') {
            proof {
                assert(d[i - start] == c);
                assert(!is_digit(d[i - start]));
            }
            return None;
        }
        let dv = digit_of(c);
        proof {
            assert(d.take(i + 1 - start).drop_last() =~= d.take(i - start));
            assert(d.take(i + 1 - start).last() == c);
        }
        if dv > max || acc > (max - dv) / 10 {
            proof {
                if dv <= max {
                    assert(acc * 10 + dv > max) by (nonlinear_arith)
                        requires
                            acc > (max - dv) / 10,
                            dv <= max,
                    ;
                }
                lemma_dec_value_prefix_mono(d, i + 1 - start);
            }
            return None;
        }
        proof {
            assert(acc * 10 + dv <= max) by (nonlinear_arith)
                requires
                    acc <= (max - dv) / 10,
                    dv <= max,
            ;
        }
        acc = acc * 10 + dv;
        proof {
            assert forall|m: int| 0 <= m < i + 1 - start implies is_digit(
                #[trigger] d.take(i + 1 - start)[m],
            ) by {
                if m < i - start {
                    assert(d.take(i + 1 - start)[m] == d.take(i - start)[m]);
                }
            }
        }
        i = i + 1;
    }
    proof {
        assert(d.take(hi - start) =~= d);
    }
    Some(acc)
}

/// Value of a digit character.
pub fn digit_of(c: char) -> (r: u64)
    requires
        is_digit(c),
    ensures
        r as nat == digit_val(c),
        r <= 9,
{
    (c as u32 - '0' as u32) as u64
}

/// Decimal rendering of `n` without leading zeros (`"0"` for zero).
pub open spec fn dec(n: nat) -> Seq<char>
    decreases n,
{
    if n < 10 {
        seq![digit_char(n)]
    } else {
        dec(n / 10).push(digit_char(n % 10))
    }
}

pub open spec fn digit_char(d: nat) -> char {
    ((d + '0' as int) as u32) as char
}

/// The decimal rendering of `n` is a non-empty run of digits whose value
/// is `n`.
pub proof fn lemma_dec(n: nat)
    ensures
        dec(n).len() > 0,
        all_digits(dec(n)),
        dec_value(dec(n)) == n,
    decreases n,
{
    if n < 10 {
        let c = digit_char(n);
        assert(c as int == n + '0' as int);
        assert(dec(n) == seq![c]);
        assert(dec(n).drop_last() =~= Seq::<char>::empty());
        assert(dec_value(Seq::<char>::empty()) == 0);
        assert(digit_val(c) == n);
        assert(dec_value(dec(n)) == dec_value(dec(n).drop_last()) * 10 + digit_val(dec(n).last()));
    } else {
        lemma_dec(n / 10);
        let c = digit_char(n % 10);
        assert(c as int == n % 10 + '0' as int);
        let s = dec(n);
        assert(s.drop_last() =~= dec(n / 10));
        assert(digit_val(c) == n % 10);
        assert(s.last() == c);
        assert(dec_value(s) == dec_value(s.drop_last()) * 10 + digit_val(s.last()));
        assert(dec_value(s) == (n / 10) * 10 + n % 10);
        assert((n / 10) * 10 + n % 10 == n) by (nonlinear_arith);
        assert forall|i: int| 0 <= i < s.len() implies is_digit(#[trigger] s[i]) by {
            if i < s.len() - 1 {
                assert(s[i] == dec(n / 10)[i]);
            }
        }
    }
}

/// Renders `n` in decimal.
pub fn u64_to_dec(n: u64) -> (r: String)
    ensures
        r@ == dec(n as nat),
{
    let mut rev: Vec<char> = Vec::new();
    let mut m = n;
    let ghost mut tail: Seq<char> = Seq::empty();
    loop
        invariant_except_break
            dec(n as nat) == dec(m as nat) + tail,
            rev@ == tail.reverse(),
        ensures
            dec(n as nat) == tail,
            rev@ == tail.reverse(),
        decreases m,
    {
        let d = (m % 10) as u32;
        let c = char_of_digit(d);
        if m < 10 {
            proof {
                assert(dec(m as nat) == seq![c]);
                tail = seq![c] + tail;
            }
            rev.push(c);
            proof {
                assert(rev@ =~= tail.reverse());
            }
            break;
        }
        proof {
            assert(dec(m as nat) == dec((m / 10) as nat).push(c));
            assert(dec((m / 10) as nat).push(c) + tail =~= dec((m / 10) as nat) + (seq![c] + tail));
            tail = seq![c] + tail;
        }
        rev.push(c);
        proof {
            assert(rev@ =~= tail.reverse());
        }
        m = m / 10;
    }
    let mut out = String::new();
    let mut k = rev.len();
    while k > 0
        invariant
            0 <= k <= rev@.len(),
            rev@ == tail.reverse(),
            out@ == tail.take(rev@.len() - k),
            dec(n as nat) == tail,
        decreases k,
    {
        k = k - 1;
        push_char(&mut out, rev[k]);
        proof {
            assert(out@ =~= tail.take(rev@.len() - k));
        }
    }
    proof {
        assert(tail.take(rev@.len() as int) =~= tail);
    }
    out
}

/// The digit character for `d < 10`.
pub fn char_of_digit(d: u32) -> (c: char)
    requires
        d < 10,
    ensures
        c == digit_char(d as nat),
        is_digit(c),
{
    if d == 0 { '0' }
    else if d == 1 { '1' }
    else if d == 2 { '2' }
    else if d == 3 { '3' }
    else if d == 4 { '4' }
    else if d == 5 { '5' }
    else if d == 6 { '6' }
    else if d == 7 { '7' }
    else if d == 8 { '8' }
    else { '9' }
}

} // verus!
