//! Whole numbers as text.

use crate::text::is_digit;
use vstd::prelude::*;

verus! {

/// The value of a digit in bases up to sixteen.
pub open spec fn digit_value(c: char) -> nat {
    if '0' <= c && c <= '9' {
        (c as u32 - '0' as u32) as nat
    } else if 'a' <= c && c <= 'f' {
        (c as u32 - 'a' as u32 + 10) as nat
    } else if 'A' <= c && c <= 'F' {
        (c as u32 - 'A' as u32 + 10) as nat
    } else {
        16
    }
}

/// Whether every character of `s` is a digit in base `radix`.
pub open spec fn all_digits(s: Seq<char>, radix: nat) -> bool {
    forall|i: int| 0 <= i < s.len() ==> digit_value(#[trigger] s[i]) < radix
}

/// The number that the digits of `s` write in base `radix`.
pub open spec fn digits_value(s: Seq<char>, radix: nat) -> nat
    decreases s.len(),
{
    if s.len() == 0 {
        0
    } else {
        digits_value(s.drop_last(), radix) * radix + digit_value(s.last())
    }
}

/// `s` without one plus sign in front.
pub open spec fn strip_plus(s: Seq<char>) -> Seq<char> {
    if s.len() > 0 && s[0] == '+' {
        s.skip(1)
    } else {
        s
    }
}

/// The 64-bit number that `s` writes in base `radix`: at least one digit,
/// nothing else but a plus sign in front, and a value that fits.
pub open spec fn parse_radix(s: Seq<char>, radix: nat) -> Option<u64> {
    let t = strip_plus(s);
    if t.len() > 0 && all_digits(t, radix) && digits_value(t, radix) <= u64::MAX {
        Some(digits_value(t, radix) as u64)
    } else {
        None
    }
}

/// The 64-bit number that `s` writes in decimal.
pub open spec fn parse_u64(s: Seq<char>) -> Option<u64> {
    parse_radix(s, 10)
}

/// The character of a decimal digit.
pub open spec fn digit_char(d: nat) -> char {
    (('0' as u32) + d) as char
}

/// `n` in decimal.
pub open spec fn decimal(n: nat) -> Seq<char>
    decreases n,
{
    if n < 10 {
        seq![digit_char(n)]
    } else {
        decimal(n / 10).push(digit_char(n % 10))
    }
}

pub proof fn lemma_digits_value_prefix(s: Seq<char>, radix: nat, k: int)
    requires
        0 <= k <= s.len(),
        radix >= 1,
    ensures
        digits_value(s.take(k), radix) <= digits_value(s, radix),
    decreases s.len(),
{
    if k < s.len() {
        assert(s.drop_last().take(k) == s.take(k));
        lemma_digits_value_prefix(s.drop_last(), radix, k);
        let v = digits_value(s.drop_last(), radix);
        assert(v <= v * radix) by (nonlinear_arith)
            requires
                radix >= 1,
        ;
    } else {
        assert(s.take(k) == s);
    }
}

/// The value of one digit, or 16 for any other character.
pub fn digit_value_of(c: char) -> (d: u32)
    ensures
        d == digit_value(c),
        d <= 16,
{
    if '0' <= c && c <= '9' {
        c as u32 - '0' as u32
    } else if 'a' <= c && c <= 'f' {
        c as u32 - 'a' as u32 + 10
    } else if 'A' <= c && c <= 'F' {
        c as u32 - 'A' as u32 + 10
    } else {
        16
    }
}

/// Reads a number in base `radix`.
pub fn parse_radix_of(s: &[char], radix: u32) -> (r: Option<u64>)
    requires
        2 <= radix <= 16,
    ensures
        r == parse_radix(s@, radix as nat),
{
    let start: usize = if s.len() > 0 && s[0] == '+' {
        1
    } else {
        0
    };
    let ghost t = strip_plus(s@);
    assert(t == s@.skip(start as int));
    if start >= s.len() {
        return None;
    }
    let mut v: u64 = 0;
    let mut i: usize = start;
    assert(t.take(0) =~= Seq::<char>::empty());
    while i < s.len()
        invariant
            start <= i <= s@.len(),
            t == s@.skip(start as int),
            t == strip_plus(s@),
            2 <= radix <= 16,
            v == digits_value(t.take(i - start), radix as nat),
            forall|k: int| 0 <= k < i - start ==> digit_value(#[trigger] t[k]) < radix,
        decreases s@.len() - i,
    {
        let ghost k = i - start;
        let d: u32 = digit_value_of(s[i]);
        assert(t[k] == s@[i as int]);
        if d >= radix {
            return None;
        }
        assert(v * radix <= u64::MAX * 16) by (nonlinear_arith)
            requires
                v <= u64::MAX,
                radix <= 16,
        ;
        let wide: u128 = v as u128 * radix as u128 + d as u128;
        proof {
            assert(t.take(k + 1).drop_last() == t.take(k));
            assert(wide == digits_value(t.take(k + 1), radix as nat));
        }
        if wide > u64::MAX as u128 {
            proof {
                lemma_digits_value_prefix(t, radix as nat, k + 1);
            }
            return None;
        }
        v = wide as u64;
        i += 1;
    }
    assert(t.take(t.len() as int) == t);
    Some(v)
}

/// Reads a decimal number.
pub fn parse_u64_of(s: &[char]) -> (r: Option<u64>)
    ensures
        r == parse_u64(s@),
{
    parse_radix_of(s, 10)
}

/// The character of a decimal digit.
pub fn digit_char_of(d: u32) -> (c: char)
    requires
        d < 10,
    ensures
        c == digit_char(d as nat),
        is_digit(c),
        digit_value(c) == d,
{
    if d == 0 {
        '0'
    } else if d == 1 {
        '1'
    } else if d == 2 {
        '2'
    } else if d == 3 {
        '3'
    } else if d == 4 {
        '4'
    } else if d == 5 {
        '5'
    } else if d == 6 {
        '6'
    } else if d == 7 {
        '7'
    } else if d == 8 {
        '8'
    } else {
        '9'
    }
}

/// Appends a number in decimal.
pub fn push_decimal(out: &mut String, n: u128)
    ensures
        final(out)@ == old(out)@ + decimal(n as nat),
    decreases n,
{
    let ghost before = out@;
    if n >= 10 {
        push_decimal(out, n / 10);
    }
    let c = digit_char_of((n % 10) as u32);
    out.push(c);
    assert(out@ == before + decimal(n as nat));
}

pub proof fn lemma_decimal(n: nat)
    ensures
        decimal(n).len() > 0,
        all_digits(decimal(n), 10),
        digits_value(decimal(n), 10) == n,
    decreases n,
{
    let d = digit_char(n % 10);
    assert(digit_value(d) == n % 10);
    if n < 10 {
        let s = decimal(n);
        assert(s == seq![d]);
        assert(s.drop_last() =~= Seq::<char>::empty());
        assert(digits_value(s.drop_last(), 10) == 0);
        assert(digits_value(s, 10) == digits_value(s.drop_last(), 10) * 10 + digit_value(s.last()));
    } else {
        lemma_decimal(n / 10);
        let s = decimal(n / 10);
        assert(s.push(d).drop_last() == s);
        assert forall|i: int| 0 <= i < s.push(d).len() implies digit_value(
            #[trigger] s.push(d)[i],
        ) < 10 by {
            if i < s.len() {
                assert(s.push(d)[i] == s[i]);
            }
        }
    }
}

/// Reading a number that was written gives the number back.
pub proof fn law_written_numbers_read_back(n: u64)
    ensures
        parse_u64(decimal(n as nat)) == Some(n),
{
    lemma_decimal(n as nat);
    let s = decimal(n as nat);
    assert(digit_value(s[0]) < 10);
    assert(strip_plus(s) == s);
}

/// A number is written digit by digit, the greatest first and without zeros in front.
pub proof fn law_numbers_are_written_digit_by_digit(n: nat, d: nat)
    requires
        d < 10,
    ensures
        decimal(d) == seq![(48 + d) as char],
        n > 0 ==> decimal(10 * n + d) == decimal(n).push((48 + d) as char),
{
    let m = 10 * n + d;
    assert(m / 10 == n && m % 10 == d);
}

} // verus!
