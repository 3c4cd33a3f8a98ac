//! Decimal numbers as text: the signed 32-bit literals that the expander
//! validates, and the decimal form of an instruction index.

use vstd::prelude::*;
use vstd::string::*;
use crate::text::{push_char, to_chars};

verus! {

/// Whether `c` is one of the ten decimal digits `0` to `9`.
pub open spec fn is_digit(c: char) -> bool {
    0x30 <= c as u32 <= 0x39
}

/// The value of a decimal digit (0 for any other character).
pub open spec fn digit_value(c: char) -> nat {
    if is_digit(c) {
        (c as u32 - 0x30) as nat
    } else {
        0
    }
}

/// Whether `s` is made of decimal digits only.
pub open spec fn all_digits(s: Seq<char>) -> bool {
    forall|i: int| 0 <= i < s.len() ==> is_digit(#[trigger] s[i])
}

/// The number that a run of decimal digits denotes, the first digit being the
/// most significant.
pub open spec fn digits_value(s: Seq<char>) -> nat
    decreases s.len(),
{
    if s.len() == 0 {
        0
    } else {
        digits_value(s.drop_last()) * 10 + digit_value(s.last())
    }
}

/// Whether `s` begins with a sign, `+` or `-`.
pub open spec fn has_sign(s: Seq<char>) -> bool {
    s.len() > 0 && (s[0] == '-' || s[0] == '+')
}

/// The number that `s` denotes as a signed 32-bit decimal literal: an
/// optional sign, then one or more decimal digits, the whole within the range
/// of `i32`. `None` where `s` is no such literal.
pub open spec fn parse_i32(s: Seq<char>) -> Option<int> {
    let body = if has_sign(s) {
        s.skip(1)
    } else {
        s
    };
    let magnitude = digits_value(body) as int;
    let value = if has_sign(s) && s[0] == '-' {
        -magnitude
    } else {
        magnitude
    };
    if body.len() > 0 && all_digits(body) && i32::MIN <= value <= i32::MAX {
        Some(value)
    } else {
        None
    }
}

/// The character of a decimal digit.
pub open spec fn digit_char(d: nat) -> char
    recommends
        d < 10,
{
    ((0x30 + d) as u8) as char
}

/// The decimal form of `n`, without sign and without leading zeros.
pub open spec fn decimal(n: nat) -> Seq<char>
    decreases n,
{
    if n < 10 {
        seq![digit_char(n)]
    } else {
        decimal(n / 10).push(digit_char(n % 10))
    }
}

/// A run of digits denotes at least what any of its prefixes denotes.
pub proof fn lemma_digits_value_prefix(s: Seq<char>, k: int)
    requires
        0 <= k <= s.len(),
    ensures
        digits_value(s.take(k)) <= digits_value(s),
    decreases s.len() - k,
{
    if k == s.len() {
        assert(s.take(k) =~= s);
    } else {
        lemma_digits_value_prefix(s.drop_last(), k);
        assert(s.drop_last().take(k) =~= s.take(k));
    }
}

/// The decimal form of a number is not empty and is made of digits.
pub proof fn lemma_decimal_is_digits(n: nat)
    ensures
        decimal(n).len() > 0,
        all_digits(decimal(n)),
    decreases n,
{
    if n >= 10 {
        lemma_decimal_is_digits(n / 10);
        assert(is_digit(digit_char(n % 10)));
    } else {
        assert(is_digit(digit_char(n)));
    }
}

/// The number that `s` denotes as a signed 32-bit decimal literal, if it is one.
pub fn parse_int(s: &str) -> (r: Option<i32>)
    ensures
        match r {
            Some(n) => parse_i32(s@) == Some(n as int),
            None => parse_i32(s@) is None,
        },
{
    let v = to_chars(s);
    let signed = v.len() > 0 && (v[0] == '-' || v[0] == '+');
    let negative = signed && v[0] == '-';
    let start: usize = if signed {
        1
    } else {
        0
    };
    let ghost body = if signed { v@.skip(1) } else { v@ };
    if start == v.len() {
        return None;
    }
    let mut acc: u64 = 0;
    let mut i: usize = start;
    assert(body.take(0) =~= Seq::<char>::empty());
    while i < v.len()
        invariant
            start <= i <= v.len(),
            v@ == s@,
            negative == (has_sign(s@) && s@[0] == '-'),
            start == (if has_sign(s@) { 1usize } else { 0usize }),
            body == (if has_sign(s@) { s@.skip(1) } else { s@ }),
            all_digits(body.take(i - start)),
            acc == digits_value(body.take(i - start)),
            acc <= 0x8000_0000,
        decreases v.len() - i,
    {
        let c: u32 = v[i] as u32;
        if c < 0x30 || c > 0x39 {
            assert(body[i - start] == v[i as int]);
            return None;
        }
        let d: u64 = (c - 0x30) as u64;
        proof {
            let next = body.take(i + 1 - start);
            assert(next.drop_last() =~= body.take(i - start));
            assert(next.last() == v[i as int]);
            assert forall|k: int| 0 <= k < next.len() implies is_digit(#[trigger] next[k]) by {
                if k < next.len() - 1 {
                    assert(next[k] == body.take(i - start)[k]);
                }
            }
            lemma_digits_value_prefix(body, i + 1 - start);
            assert(digit_value(next.last()) == d);
            assert(digits_value(next) == acc * 10 + d);
        }
        if acc * 10 + d > 0x8000_0000 {
            return None;
        }
        acc = acc * 10 + d;
        i += 1;
    }
    assert(body.take(i - start) =~= body);
    if negative {
        if acc == 0x8000_0000 {
            Some(i32::MIN)
        } else {
            Some(0 - (acc as i32))
        }
    } else if acc == 0x8000_0000 {
        None
    } else {
        Some(acc as i32)
    }
}

/// Appends the decimal form of `n` to `out`.
pub fn push_decimal(out: &mut String, n: usize)
    ensures
        final(out)@ == old(out)@ + decimal(n as nat),
    decreases n,
{
    if n >= 10 {
        push_decimal(out, n / 10);
    }
    let d: u8 = (n % 10) as u8;
    push_char(out, (0x30 + d) as char);
    assert(out@ =~= old(out)@ + decimal(n as nat));
}

/// The decimal form of `n`.
pub fn decimal_string(n: usize) -> (s: String)
    ensures
        s@ == decimal(n as nat),
{
    let mut s = String::new();
    push_decimal(&mut s, n);
    assert(s@ =~= decimal(n as nat));
    s
}

} // verus!
