//! Decimal text of binary64 numbers: reading it and printing it.

use crate::bignat::BigNat;
use crate::binary64::{
    half_even, in_binade, lemma_binade_exists, lemma_nearest_at, lemma_p2_adds, lemma_p2_mono,
    lemma_p2_pos, lemma_p2_step, nearest, p2, Binary64, HIDDEN, INFINITY, NAN,
};
use crate::number::{
    decimal, digit_char, digit_char_of, digit_value, digit_value_of, digits_value, push_decimal,
};
use crate::text::{
    digit, is_digit, is_digit_char, lemma_prefix_len, lemma_prefix_len_is, prefix_len,
};
use vstd::prelude::*;
use vstd::slice::slice_subrange;

verus! {

/// Ten to the power of `k`, and 1 for a negative `k`.
pub open spec fn p10(k: int) -> nat
    decreases k,
{
    if k <= 0 {
        1
    } else {
        10 * p10(k - 1)
    }
}

/// The number nearest to `n * 10^x`.
pub open spec fn scaled(n: nat, x: int) -> Binary64 {
    nearest(n * p10(x), p10(-x), 0)
}

/// `c` in lower case, if it is an ASCII letter.
pub open spec fn lower(c: char) -> char {
    if 'A' <= c && c <= 'Z' {
        (c as u32 + 32) as char
    } else {
        c
    }
}

/// Whether `s` is the word `w`, upper and lower case letters being the same.
pub open spec fn same_word(s: Seq<char>, w: Seq<char>) -> bool {
    &&& s.len() == w.len()
    &&& forall|i: int| 0 <= i < s.len() ==> lower(#[trigger] s[i]) == w[i]
}

/// Whether `s` is one digit or more and nothing else.
pub open spec fn is_digits(s: Seq<char>) -> bool {
    s.len() > 0 && forall|i: int| 0 <= i < s.len() ==> is_digit(#[trigger] s[i])
}

/// The exponent that `s` writes: digits with an optional sign.
pub open spec fn parse_exponent(s: Seq<char>) -> Option<int> {
    if s.len() > 0 && s[0] == '-' {
        if is_digits(s.skip(1)) {
            Some(-(digits_value(s.skip(1), 10) as int))
        } else {
            None
        }
    } else {
        let t = if s.len() > 0 && s[0] == '+' {
            s.skip(1)
        } else {
            s
        };
        if is_digits(t) {
            Some(digits_value(t, 10) as int)
        } else {
            None
        }
    }
}

/// The digits before the point.
pub open spec fn whole_part(s: Seq<char>) -> Seq<char> {
    s.take(prefix_len(s, digit()) as int)
}

/// What stands behind the digits before the point.
pub open spec fn after_whole(s: Seq<char>) -> Seq<char> {
    s.skip(prefix_len(s, digit()) as int)
}

/// The digits behind the point.
pub open spec fn fraction_part(s: Seq<char>) -> Seq<char> {
    let t = after_whole(s);
    if t.len() > 0 && t[0] == '.' {
        whole_part(t.skip(1))
    } else {
        Seq::empty()
    }
}

/// What stands behind the digits and the point.
pub open spec fn after_fraction(s: Seq<char>) -> Seq<char> {
    let t = after_whole(s);
    if t.len() > 0 && t[0] == '.' {
        after_whole(t.skip(1))
    } else {
        t
    }
}

/// The exponent that the end of a number writes; none there means zero.
pub open spec fn tail_exponent(t: Seq<char>) -> Option<int> {
    if t.len() == 0 {
        Some(0)
    } else if t[0] == 'e' || t[0] == 'E' {
        parse_exponent(t.skip(1))
    } else {
        None
    }
}

/// The number that `s` writes without a sign: digits with an optional point
/// among them, at least one digit, and an optional exponent.
pub open spec fn parse_unsigned(s: Seq<char>) -> Option<Binary64> {
    let digits = whole_part(s) + fraction_part(s);
    match tail_exponent(after_fraction(s)) {
        Some(x) if digits.len() > 0 => Some(
            scaled(digits_value(digits, 10), x - fraction_part(s).len()),
        ),
        _ => None,
    }
}

/// The number that `s` writes.
pub open spec fn parse_float(s: Seq<char>) -> Option<Binary64> {
    let negative = s.len() > 0 && s[0] == '-';
    let t = if s.len() > 0 && (s[0] == '-' || s[0] == '+') {
        s.skip(1)
    } else {
        s
    };
    if same_word(t, seq!['n', 'a', 'n']) {
        Some(Binary64 { bits: NAN }.with_sign(negative))
    } else if same_word(t, seq!['i', 'n', 'f']) || same_word(
        t,
        seq!['i', 'n', 'f', 'i', 'n', 'i', 't', 'y'],
    ) {
        Some(Binary64 { bits: INFINITY }.with_sign(negative))
    } else {
        match parse_unsigned(t) {
            Some(x) => Some(x.with_sign(negative)),
            None => None,
        }
    }
}

/// The absolute value of a finite number in tenths, to the nearest integer.
pub open spec fn tenths(x: Binary64) -> nat {
    half_even(10 * x.mantissa() * p2(x.exponent()), p2(-x.exponent()))
}

/// A number of tenths in decimal, with one digit behind the point.
pub open spec fn tenths_text(t: nat) -> Seq<char> {
    decimal(t / 10) + seq!['.', digit_char(t % 10)]
}

/// `x` in decimal, with one digit behind the point.
pub open spec fn fixed_text(x: Binary64) -> Seq<char> {
    let sign = if x.negative() {
        seq!['-']
    } else {
        Seq::<char>::empty()
    };
    if x.is_nan() {
        seq!['N', 'a', 'N']
    } else if x.is_infinite() {
        sign + seq!['i', 'n', 'f']
    } else {
        sign + tenths_text(tenths(x))
    }
}

proof fn lemma_p10_pos(k: int)
    ensures
        p10(k) >= 1,
    decreases k,
{
    if k > 0 {
        lemma_p10_pos(k - 1);
    }
}

proof fn lemma_p10_adds(i: int, j: int)
    requires
        i >= 0,
        j >= 0,
    ensures
        p10(i + j) == p10(i) * p10(j),
    decreases i,
{
    if i > 0 {
        lemma_p10_adds(i - 1, j);
        assert(10 * (p10(i - 1) * p10(j)) == (10 * p10(i - 1)) * p10(j)) by (nonlinear_arith);
    } else {
        assert(1 * p10(j) == p10(j));
    }
}

/// Ten powers of ten are more than thirty-three powers of two.
proof fn lemma_p10_p2(n: int)
    requires
        n >= 0,
    ensures
        p10(10 * n) >= p2(33 * n),
    decreases n,
{
    if n > 0 {
        lemma_p10_p2(n - 1);
        lemma_p10_adds(10, 10 * n - 10);
        lemma_p2_adds(33, 33 * n - 33);
        reveal_with_fuel(p10, 12);
        vstd::arithmetic::power2::lemma2_to64();
        vstd::arithmetic::power2::lemma2_to64_rest();
        let a = p10(10 * n - 10);
        let b = p2(33 * n - 33);
        assert(10_000_000_000 * a >= 0x2_0000_0000 * b) by (nonlinear_arith)
            requires
                a >= b,
                b >= 0,
        ;
    }
}

/// What is at least 2^1024 is infinite.
proof fn lemma_overflow(n: nat, d: nat)
    requires
        d > 0,
        n >= d * p2(1024),
    ensures
        nearest(n, d, 0) == (Binary64 { bits: INFINITY }),
{
    let e = lemma_binade_exists(n, d, 0);
    let a = n * p2(-e);
    let b = d * p2(e);
    let h = HIDDEN as nat;
    vstd::arithmetic::power2::lemma2_to64();
    vstd::arithmetic::power2::lemma2_to64_rest();
    assert(p2(53) == 2 * h);
    lemma_p2_pos(-e);
    lemma_p2_pos(e);
    if e <= 971 {
        if e >= 0 {
            lemma_p2_adds(e, 53);
            lemma_p2_mono(e + 53, 1024);
            assert(a >= b * (2 * h)) by (nonlinear_arith)
                requires
                    a == n * 1,
                    n >= d * p2(1024),
                    p2(1024) >= p2(e) * (2 * h),
                    b == d * p2(e),
            ;
        } else {
            lemma_p2_mono(53, 1024);
            assert(a >= b * (2 * h)) by (nonlinear_arith)
                requires
                    a == n * p2(-e),
                    p2(-e) >= 1,
                    n >= d * p2(1024),
                    p2(1024) >= 2 * h,
                    b == d * 1,
            ;
        }
    }
    assert(b > 0) by (nonlinear_arith)
        requires
            b == d * p2(e),
            d > 0,
            p2(e) >= 1,
    ;
    assert(a / b >= h) by (nonlinear_arith)
        requires
            b * h <= a,
            b > 0,
    ;
    assert((e + 1074) * HIDDEN >= 2046 * HIDDEN) by (nonlinear_arith)
        requires
            e >= 972,
            HIDDEN > 0,
    ;
}

/// What is less than 2^-1075 is zero.
proof fn lemma_underflow(n: nat, d: nat)
    requires
        2 * (n * p2(1074)) < d,
    ensures
        nearest(n, d, 0) == (Binary64 { bits: 0 }),
{
    let a = n * p2(1074);
    let b = d * p2(-1074);
    assert(p2(-1074) == 1);
    assert(b == d);
    assert(a < b * (2 * HIDDEN as nat)) by (nonlinear_arith)
        requires
            2 * a < b,
            HIDDEN >= 1,
    ;
    assert(in_binade(n, d, 0, -1074));
    lemma_nearest_at(n, d, 0, -1074);
    vstd::arithmetic::div_mod::lemma_basic_div(a as int, b as int);
    vstd::arithmetic::div_mod::lemma_small_mod(a, b);
}

/// Rounds the quotient of two big numbers.
fn round_ratio(num: BigNat, den: BigNat) -> (r: Binary64)
    requires
        den@ > 0,
    ensures
        r == nearest(num@, den@, 0),
{
    let ghost n0 = num@;
    let ghost d0 = den@;
    let ghost h = HIDDEN as nat;
    let mut n = num;
    // `top` is 2^53 times the divisor.
    let mut top = den;
    let mut i: u32 = 0;
    assert(d0 * p2(0) == d0) by (nonlinear_arith)
        requires
            p2(0) == 1,
    ;
    proof {
        vstd::arithmetic::power2::lemma2_to64();
        vstd::arithmetic::power2::lemma2_to64_rest();
    }
    while i < 53
        invariant
            i <= 53,
            top@ == d0 * p2(i as int),
        decreases 53 - i,
    {
        proof {
            lemma_p2_step(i as int);
            assert(d0 * (2 * p2(i as int)) == (d0 * p2(i as int)) * 2) by (nonlinear_arith);
        }
        top.mul_add(2, 0);
        i += 1;
    }
    assert(p2(53) == 2 * h);
    let mut e: i32 = 0;
    assert(d0 * p2(0) == d0) by (nonlinear_arith)
        requires
            p2(0) == 1,
    ;
    while !n.less(&top)
        invariant
            0 <= e <= 971,
            n@ == n0,
            n0 == num@,
            d0 == den@,
            h == HIDDEN,
            d0 > 0,
            top@ == d0 * p2(e as int) * (2 * h),
            e > 0 ==> d0 * p2(e as int) * h <= n0,
        decreases 971 - e,
    {
        if e == 971 {
            proof {
                vstd::arithmetic::power2::lemma2_to64();
                vstd::arithmetic::power2::lemma2_to64_rest();
                lemma_p2_adds(971, 53);
                assert(d0 * p2(971) * (2 * h) == d0 * p2(1024)) by (nonlinear_arith)
                    requires
                        p2(1024) == p2(971) * (2 * h),
                ;
                lemma_overflow(n0, d0);
            }
            return Binary64 { bits: INFINITY };
        }
        proof {
            lemma_p2_step(e as int);
            assert(d0 * (2 * p2(e as int)) * (2 * h) == (d0 * p2(e as int) * (2 * h)) * 2)
                by (nonlinear_arith);
            assert(d0 * (2 * p2(e as int)) * h == d0 * p2(e as int) * (2 * h))
                by (nonlinear_arith);
        }
        top.mul_add(2, 0);
        e += 1;
    }
    assert(n0 * p2(0) == n0) by (nonlinear_arith)
        requires
            p2(0) == 1,
    ;
    if e == 0 {
        while e > -1074
            invariant
                -1074 <= e <= 0,
                h == HIDDEN,
                d0 > 0,
                n@ == n0 * p2(-e),
                n@ < top@,
                top@ == d0 * (2 * h),
            ensures
                -1074 <= e <= 0,
                n@ == n0 * p2(-e),
                n@ < top@,
                top@ == d0 * (2 * h),
                e == -1074 || d0 * h <= n@,
            decreases e + 1074,
        {
            // The doubled number is the candidate of the next place.
            let ghost before = n@;
            let mut twice = n;
            twice.mul_add(2, 0);
            if !twice.less(&top) {
                assert(d0 * h <= before) by (nonlinear_arith)
                    requires
                        before * 2 >= d0 * (2 * h),
                ;
                let _rest: u32 = twice.div_rem(2);
                n = twice;
                break;
            }
            proof {
                lemma_p2_step(-e as int);
                assert(n0 * (2 * p2(-e)) == (n0 * p2(-e)) * 2) by (nonlinear_arith);
            }
            n = twice;
            e -= 1;
        }
    }
    let ghost b = d0 * p2(e as int);
    let ghost a = n@;
    proof {
        lemma_p2_pos(e as int);
        assert(b > 0) by (nonlinear_arith)
            requires
                b == d0 * p2(e as int),
                d0 > 0,
                p2(e as int) >= 1,
        ;
        assert(a == n0 * p2(-e));
        if e <= 0 {
            assert(b == d0);
        }
        assert(top@ == b * (2 * h));
        assert(in_binade(n0, d0, 0, e as int));
        lemma_nearest_at(n0, d0, 0, e as int);
    }
    let mut q: u64 = 0;
    let mut k: u32 = 0;
    while k < 53
        invariant
            k <= 53,
            q < p2(k as int),
            a * p2(k as int) == q * top@ + n@,
            n@ < top@,
        decreases 53 - k,
    {
        let ghost before = n@;
        n.mul_add(2, 0);
        proof {
            lemma_p2_step(k as int);
            vstd::arithmetic::power2::lemma2_to64();
            vstd::arithmetic::power2::lemma2_to64_rest();
            lemma_p2_mono(k as int, 52);
        }
        if n.less(&top) {
            proof {
                assert(a * (2 * p2(k as int)) == (2 * q) * top@ + 2 * before)
                    by (nonlinear_arith)
                    requires
                        a * p2(k as int) == q * top@ + before,
                ;
            }
            q = 2 * q;
        } else {
            proof {
                assert(a * (2 * p2(k as int)) == (2 * q + 1) * top@ + (2 * before - top@))
                    by (nonlinear_arith)
                    requires
                        a * p2(k as int) == q * top@ + before,
                ;
            }
            n.subtract(&top);
            q = 2 * q + 1;
        }
        k += 1;
    }
    let ghost r = n@;
    n.mul_add(2, 0);
    let less: bool = n.less(&top);
    let more: bool = top.less(&n);
    let up: bool = more || (!less && q % 2 == 1);
    proof {
        vstd::arithmetic::power2::lemma2_to64();
        vstd::arithmetic::power2::lemma2_to64_rest();
        lemma_quotient(a, b, q as nat, r, 2 * h);
    }
    let mant: u64 = if up {
        q + 1
    } else {
        q
    };
    let bits: u128 = mant as u128 + (e + 1074) as u128 * HIDDEN as u128;
    if bits >= INFINITY as u128 {
        Binary64 { bits: INFINITY }
    } else {
        Binary64 { bits: bits as u64 }
    }
}

/// A quotient and a remainder with a common factor.
proof fn lemma_quotient(a: nat, b: nat, q: nat, r: nat, c: nat)
    requires
        b > 0,
        c > 0,
        a * c == q * (b * c) + r,
        r < b * c,
    ensures
        half_even(a, b) == if 2 * r > b * c || (2 * r == b * c && q % 2 == 1) {
            q + 1
        } else {
            q
        },
{
    let rest: int = a - q * b;
    assert(rest * c == r) by (nonlinear_arith)
        requires
            rest == a - q * b,
            a * c == q * (b * c) + r,
    ;
    assert(0 <= rest < b) by (nonlinear_arith)
        requires
            rest * c == r,
            r < b * c,
            c > 0,
            r >= 0,
    ;
    vstd::arithmetic::div_mod::lemma_fundamental_div_mod_converse(
        a as int,
        b as int,
        q as int,
        rest,
    );
    assert((2 * rest < b) == (2 * r < b * c) && (2 * rest == b) == (2 * r == b * c))
        by (nonlinear_arith)
        requires
            rest * c == r,
            c > 0,
    ;
}

/// The bounds of a number with `nd` significant digits.
proof fn lemma_digit_count(s: Seq<char>)
    requires
        s.len() > 0,
        is_digit(s[0]),
        s[0] != '0',
        forall|i: int| 0 <= i < s.len() ==> is_digit(#[trigger] s[i]),
    ensures
        digits_value(s, 10) >= p10(s.len() - 1),
        digits_value(s, 10) < p10(s.len() as int),
    decreases s.len(),
{
    if s.len() == 1 {
        assert(s.drop_last() =~= Seq::<char>::empty());
        reveal_with_fuel(p10, 2);
        reveal_with_fuel(digits_value, 2);
        assert(digit_value(s[0]) >= 1);
    } else {
        let t = s.drop_last();
        lemma_digit_count(t);
        assert(is_digit(s.last()));
        assert(p10(s.len() - 1) == 10 * p10(t.len() - 1));
        assert(p10(s.len() as int) == 10 * p10(t.len() as int));
    }
}

/// Leading zeros write nothing.
proof fn lemma_leading_zeros(s: Seq<char>, z: int)
    requires
        0 <= z <= s.len(),
        forall|i: int| 0 <= i < z ==> #[trigger] s[i] == '0',
    ensures
        digits_value(s, 10) == digits_value(s.skip(z), 10),
    decreases s.len(),
{
    if s.len() > z {
        let t = s.drop_last();
        assert forall|i: int| 0 <= i < z implies #[trigger] t[i] == '0' by {
            assert(t[i] == s[i]);
        }
        lemma_leading_zeros(t, z);
        assert(t.skip(z) == s.skip(z).drop_last());
        assert(s.skip(z).last() == s.last());
    } else {
        assert(s.skip(z) =~= Seq::<char>::empty());
        if s.len() > 0 {
            let t = s.drop_last();
            assert forall|i: int| 0 <= i < t.len() implies #[trigger] t[i] == '0' by {
                assert(t[i] == s[i]);
            }
            lemma_leading_zeros(t, z - 1);
            assert(t.skip(z - 1) =~= Seq::<char>::empty());
            assert(s.last() == '0');
        }
    }
}

/// A number whose point is far to the right is infinite.
proof fn lemma_huge(n: nat, x: int, count: int)
    requires
        count >= 1,
        n >= p10(count - 1),
        count + x > 320,
    ensures
        scaled(n, x) == (Binary64 { bits: INFINITY }),
{
    lemma_p10_p2(32);
    lemma_p2_mono(1024, 1056);
    lemma_p10_pos(-x);
    let num = n * p10(x);
    let den = p10(-x);
    let k = p2(1024);
    if x >= 0 {
        lemma_p10_adds(count - 1, x);
        lemma_p10_adds(320, count - 1 + x - 320);
        lemma_p10_pos(count - 1 + x - 320);
        let u = p10(count - 1);
        let v = p10(x);
        let w = p10(count - 1 + x - 320);
        let c = p10(320);
        assert(num >= den * k) by (nonlinear_arith)
            requires
                num == n * v,
                n >= u,
                u * v == c * w,
                w >= 1,
                c >= k,
                den == 1,
                v >= 0,
                k >= 0,
        ;
    } else {
        lemma_p10_adds(320, count - 1 - 320);
        lemma_p10_adds(-x, count - 1 + x);
        lemma_p10_adds(320, count - 1 + x - 320);
        lemma_p10_pos(count - 1 + x - 320);
        let u = p10(count - 1);
        let w = p10(count - 1 + x - 320);
        let c = p10(320);
        let y = p10(count - 1 + x);
        assert(num >= den * k) by (nonlinear_arith)
            requires
                num == n * 1,
                n >= u,
                u == den * y,
                y == c * w,
                w >= 1,
                c >= k,
                den >= 1,
                k >= 0,
        ;
    }
    lemma_overflow(num, den);
}

/// A number whose point is far to the left is zero.
proof fn lemma_tiny(n: nat, x: int, count: int)
    requires
        count >= 1,
        n < p10(count),
        count + x < -330,
    ensures
        scaled(n, x) == (Binary64 { bits: 0 }),
{
    lemma_p10_p2(33);
    lemma_p2_mono(1075, 1089);
    lemma_p2_step(1074);
    lemma_p2_pos(1074);
    let den = p10(-x);
    let num = n * p10(x);
    assert(num == n) by (nonlinear_arith)
        requires
            num == n * p10(x),
            p10(x) == 1,
    ;
    let k = p2(1074);
    let u = p10(count);
    let c = p10(330);
    let w = p10(-x - count - 330);
    lemma_p10_adds(count, -x - count);
    lemma_p10_adds(330, -x - count - 330);
    lemma_p10_pos(-x - count - 330);
    assert(2 * (num * k) < den) by (nonlinear_arith)
        requires
            num == n,
            n < u,
            den == u * (c * w),
            w >= 1,
            c >= 2 * k,
            k >= 1,
    {
        assert(2 * (n * k) == n * (2 * k));
        assert(n * (2 * k) < u * (2 * k));
        assert(u * (2 * k) <= u * c);
        assert(u * c <= u * (c * w));
    }
    lemma_underflow(num, den);
}

/// Multiplies by a power of ten.
fn times_p10(n: &mut BigNat, x: u128)
    ensures
        final(n)@ == old(n)@ * p10(x as int),
{
    let ghost start = n@;
    let mut i: u128 = 0;
    assert(start * p10(0) == start) by (nonlinear_arith)
        requires
            p10(0) == 1,
    ;
    while i < x
        invariant
            i <= x,
            n@ == start * p10(i as int),
        decreases x - i,
    {
        assert(start * p10(i + 1) == (start * p10(i as int)) * 10) by (nonlinear_arith)
            requires
                p10(i + 1) == 10 * p10(i as int),
        ;
        n.mul_add(10, 0);
        i += 1;
    }
}

/// The number nearest to the digits of `s` times `10^x`.
fn scaled_of(s: &Vec<char>, x: i128) -> (r: Binary64)
    requires
        is_digits(s@),
        -0x10_0000_0000_0000_0000_0000_0000 <= x <= 0x10_0000_0000_0000_0000_0000_0000,
    ensures
        r == scaled(digits_value(s@, 10), x as int),
{
    let ghost n = digits_value(s@, 10);
    let mut z: usize = 0;
    while z < s.len() && s[z] == '0'
        invariant
            z <= s@.len(),
            forall|i: int| 0 <= i < z ==> #[trigger] s@[i] == '0',
        decreases s@.len() - z,
    {
        z += 1;
    }
    let count: usize = s.len() - z;
    let ghost t = s@.skip(z as int);
    proof {
        lemma_leading_zeros(s@, z as int);
        lemma_p10_pos(-x);
    }
    if count == 0 {
        proof {
            assert(t =~= Seq::<char>::empty());
            assert(n * p10(x as int) == 0) by (nonlinear_arith)
                requires
                    n == 0,
            ;
            assert(0 * p2(1074) == 0);
            lemma_underflow(0, p10(-x));
        }
        return Binary64 { bits: 0 };
    }
    proof {
        assert forall|i: int| 0 <= i < t.len() implies is_digit(#[trigger] t[i]) by {
            assert(t[i] == s@[z + i]);
        }
        lemma_digit_count(t);
    }
    if count as i128 + x > 320 {
        proof {
            lemma_huge(n, x as int, count as int);
        }
        return Binary64 { bits: INFINITY };
    }
    if count as i128 + x < -330 {
        proof {
            lemma_tiny(n, x as int, count as int);
        }
        return Binary64 { bits: 0 };
    }
    let mut num = BigNat::zero();
    let mut i: usize = 0;
    assert(s@.take(0) =~= Seq::<char>::empty());
    while i < s.len()
        invariant
            i <= s@.len(),
            is_digits(s@),
            num@ == digits_value(s@.take(i as int), 10),
        decreases s@.len() - i,
    {
        assert(s@.take(i + 1).drop_last() == s@.take(i as int));
        assert(is_digit(s@[i as int]));
        num.mul_add(10, digit_value_of(s[i]));
        i += 1;
    }
    assert(s@.take(s@.len() as int) == s@);
    let mut den = BigNat::zero();
    den.mul_add(1, 1);
    if x >= 0 {
        times_p10(&mut num, x as u128);
        assert(den@ == p10(-x));
    } else {
        times_p10(&mut den, (-x) as u128);
        assert(n * p10(x as int) == n) by (nonlinear_arith)
            requires
                p10(x as int) == 1,
        ;
        assert(1 * p10(-x) == p10(-x));
    }
    round_ratio(num, den)
}

/// How many leading characters are digits.
fn digit_run(s: &[char]) -> (n: usize)
    ensures
        n == prefix_len(s@, digit()),
        n <= s@.len(),
        forall|i: int| 0 <= i < n ==> is_digit(#[trigger] s@[i]),
{
    let mut n: usize = 0;
    while n < s.len() && is_digit_char(s[n])
        invariant
            n <= s@.len(),
            forall|i: int| 0 <= i < n ==> digit()(#[trigger] s@[i]),
        decreases s@.len() - n,
    {
        n += 1;
    }
    proof {
        lemma_prefix_len_is(s@, digit(), n as nat);
        assert forall|i: int| 0 <= i < n implies is_digit(#[trigger] s@[i]) by {
            assert(digit()(s@[i]));
        }
    }
    n
}

/// Whether a text is digits and nothing else.
fn is_digits_of(s: &[char]) -> (b: bool)
    ensures
        b == is_digits(s@),
{
    let n: usize = digit_run(s);
    proof {
        lemma_prefix_len(s@, digit());
        if n < s@.len() {
            assert(!digit()(s@[n as int]));
            assert(!is_digit(s@[n as int]));
        }
    }
    s.len() > 0 && n == s.len()
}

/// The bound at which an exponent decides on its own.
spec fn far() -> int {
    0x1_0000_0000_0000_0000_0000_0000
}

/// Reads an exponent, held between two bounds that no text reaches otherwise.
fn parse_exponent_of(s: &[char]) -> (r: Option<i128>)
    ensures
        match (r, parse_exponent(s@)) {
            (Some(x), Some(y)) => x == y || (x == far() && y >= far()) || (x == -far() && y
                <= -far()),
            (None, None) => true,
            _ => false,
        },
        r matches Some(x) ==> -far() <= x <= far(),
{
    let negative: bool = s.len() > 0 && s[0] == '-';
    let start: usize = if s.len() > 0 && (s[0] == '-' || s[0] == '+') {
        1
    } else {
        0
    };
    let t = slice_subrange(s, start, s.len());
    assert(start == 0 ==> t@ == s@);
    assert(start == 1 ==> t@ == s@.skip(1));
    if !is_digits_of(t) {
        return None;
    }
    let mut v: i128 = 0;
    let mut i: usize = 0;
    assert(t@.take(0) =~= Seq::<char>::empty());
    while i < t.len()
        invariant
            i <= t@.len(),
            is_digits(t@),
            0 <= v <= far(),
            v == digits_value(t@.take(i as int), 10) || (v == far() && digits_value(
                t@.take(i as int),
                10,
            ) >= far()),
        decreases t@.len() - i,
    {
        let ghost before = digits_value(t@.take(i as int), 10);
        assert(t@.take(i + 1).drop_last() == t@.take(i as int));
        assert(is_digit(t@[i as int]));
        let d: u32 = digit_value_of(t[i]);
        let next: i128 = v * 10 + d as i128;
        v = if next > 0x1_0000_0000_0000_0000_0000_0000 {
            0x1_0000_0000_0000_0000_0000_0000
        } else {
            next
        };
        i += 1;
    }
    assert(t@.take(t@.len() as int) == t@);
    if negative {
        Some(-v)
    } else {
        Some(v)
    }
}

/// An exponent beyond the bounds is as good as the bound.
proof fn lemma_far_exponent(s: Seq<char>, x: int, y: int, f: int)
    requires
        is_digits(s),
        s.len() <= usize::MAX,
        0 <= f <= usize::MAX,
        x == y || (x == far() && y >= far()) || (x == -far() && y <= -far()),
    ensures
        scaled(digits_value(s, 10), x - f) == scaled(digits_value(s, 10), y - f),
{
    if x != y {
        let n = digits_value(s, 10);
        let z = prefix_len(s, crate::text::only('0')) as int;
        lemma_prefix_len(s, crate::text::only('0'));
        assert forall|i: int| 0 <= i < z implies #[trigger] s[i] == '0' by {
            assert(crate::text::only('0')(s[i]));
        }
        lemma_leading_zeros(s, z);
        let t = s.skip(z);
        if z == s.len() {
            assert(t =~= Seq::<char>::empty());
            lemma_scaled_zero(x - f);
            lemma_scaled_zero(y - f);
        } else {
            assert(!crate::text::only('0')(s[z]));
            assert forall|i: int| 0 <= i < t.len() implies is_digit(#[trigger] t[i]) by {
                assert(t[i] == s[z + i]);
            }
            lemma_digit_count(t);
            if x > 0 {
                lemma_huge(n, x - f, t.len() as int);
                lemma_huge(n, y - f, t.len() as int);
            } else {
                lemma_tiny(n, x - f, t.len() as int);
                lemma_tiny(n, y - f, t.len() as int);
            }
        }
    }
}

proof fn lemma_scaled_zero(x: int)
    ensures
        scaled(0, x) == (Binary64 { bits: 0 }),
{
    lemma_p10_pos(-x);
    assert(0 * p10(x) == 0);
    assert(0 * p2(1074) == 0);
    lemma_underflow(0, p10(-x));
}

/// Reads a number without a sign.
fn parse_unsigned_of(s: &[char]) -> (r: Option<Binary64>)
    ensures
        r == parse_unsigned(s@),
{
    let n: usize = digit_run(s);
    let t = slice_subrange(s, n, s.len());
    assert(t@ == after_whole(s@));
    let mut digits: Vec<char> = Vec::new();
    let mut i: usize = 0;
    while i < n
        invariant
            i <= n <= s@.len(),
            digits@ == s@.take(i as int),
            forall|j: int| 0 <= j < n ==> is_digit(#[trigger] s@[j]),
        decreases n - i,
    {
        digits.push(s[i]);
        i += 1;
    }
    assert(digits@ == whole_part(s@));
    let ghost whole = digits@;
    let mut f: usize = 0;
    let rest: &[char];
    if t.len() > 0 && t[0] == '.' {
        let u = slice_subrange(t, 1, t.len());
        assert(u@ == t@.skip(1));
        f = digit_run(u);
        let mut j: usize = 0;
        while j < f
            invariant
                j <= f <= u@.len(),
                digits@ == whole + u@.take(j as int),
            decreases f - j,
        {
            digits.push(u[j]);
            assert(u@.take(j + 1) == u@.take(j as int).push(u@[j as int]));
            j += 1;
        }
        rest = slice_subrange(u, f, u.len());
        assert(rest@ == after_whole(u@));
        assert(u@.take(f as int) == fraction_part(s@));
        assert forall|j: int| whole.len() <= j < digits@.len() implies is_digit(
            #[trigger] digits@[j],
        ) by {
            assert(digits@[j] == u@[j - whole.len()]);
        }
    } else {
        rest = t;
        assert(fraction_part(s@) =~= Seq::<char>::empty());
        assert(whole + fraction_part(s@) == whole);
    }
    assert(digits@ == whole_part(s@) + fraction_part(s@));
    assert(rest@ == after_fraction(s@));
    let x: i128;
    if rest.len() == 0 {
        x = 0;
    } else if rest[0] == 'e' || rest[0] == 'E' {
        let tail = slice_subrange(rest, 1, rest.len());
        assert(tail@ == rest@.skip(1));
        match parse_exponent_of(tail) {
            Some(y) => {
                x = y;
            },
            None => {
                return None;
            },
        }
    } else {
        return None;
    }
    if digits.len() == 0 {
        return None;
    }
    proof {
        assert forall|j: int| 0 <= j < digits@.len() implies is_digit(#[trigger] digits@[j]) by {
            if j < whole.len() {
                assert(digits@[j] == s@[j]);
            }
        }
        let y = tail_exponent(after_fraction(s@))->0;
        lemma_far_exponent(digits@, x as int, y, f as int);
    }
    Some(scaled_of(&digits, x - f as i128))
}

/// Whether a text is a word, upper and lower case letters being the same.
fn same_word_of(s: &[char], w: &str) -> (b: bool)
    ensures
        b == same_word(s@, w@),
{
    if s.len() != w.unicode_len() {
        return false;
    }
    let mut i: usize = 0;
    for c in it: w.chars()
        invariant
            it.seq() == w@,
            s@.len() == w@.len(),
            i == it.index(),
            forall|j: int| 0 <= j < i ==> lower(#[trigger] s@[j]) == w@[j],
    {
        if lower_of(s[i]) != c {
            assert(lower(s@[i as int]) != w@[i as int]);
            return false;
        }
        i += 1;
    }
    true
}

/// A character in lower case, if it is an ASCII letter.
pub fn lower_of(c: char) -> (r: char)
    ensures
        r == lower(c),
{
    if 'A' <= c && c <= 'Z' {
        let n: u8 = c as u8;
        (n + 32) as char
    } else {
        c
    }
}

/// Reads a number.
pub fn parse_float_of(s: &[char]) -> (r: Option<Binary64>)
    ensures
        r == parse_float(s@),
{
    let negative: bool = s.len() > 0 && s[0] == '-';
    let start: usize = if s.len() > 0 && (s[0] == '-' || s[0] == '+') {
        1
    } else {
        0
    };
    let t = slice_subrange(s, start, s.len());
    assert(start == 0 ==> t@ == s@);
    assert(start == 1 ==> t@ == s@.skip(1));
    proof {
        reveal_strlit("nan");
        reveal_strlit("inf");
        reveal_strlit("infinity");
        assert("nan"@ =~= seq!['n', 'a', 'n']);
        assert("inf"@ =~= seq!['i', 'n', 'f']);
        assert("infinity"@ =~= seq!['i', 'n', 'f', 'i', 'n', 'i', 't', 'y']);
    }
    if same_word_of(t, "nan") {
        return Some(Binary64 { bits: NAN }.signed(negative));
    }
    if same_word_of(t, "inf") || same_word_of(t, "infinity") {
        return Some(Binary64 { bits: INFINITY }.signed(negative));
    }
    match parse_unsigned_of(t) {
        Some(x) => Some(x.signed(negative)),
        None => None,
    }
}

/// Appends the digits of a big number.
fn push_big(out: &mut String, n: BigNat)
    ensures
        final(out)@ == old(out)@ + decimal(n@),
    decreases n@,
{
    let ghost before = out@;
    let mut q = n;
    let r: u32 = q.div_rem(10);
    proof {
        assert(n@ == q@ * 10 + r);
        assert(n@ / 10 == q@ && n@ % 10 == r);
    }
    if !q.is_zero() {
        push_big(out, q);
    }
    out.push(digit_char_of(r));
    assert(out@ == before + decimal(n@));
}

/// Appends a number with one digit behind the point.
pub fn push_fixed(out: &mut String, x: Binary64)
    ensures
        final(out)@ == old(out)@ + fixed_text(x),
{
    let ghost before = out@;
    let a: u64 = x.magnitude_of();
    proof {
        reveal_strlit("NaN");
        reveal_strlit("inf");
        assert("NaN"@ =~= seq!['N', 'a', 'N']);
        assert("inf"@ =~= seq!['i', 'n', 'f']);
    }
    if a > INFINITY {
        out.append("NaN");
        return ;
    }
    if x.negative_of() {
        out.push('-');
        assert(out@ == before + seq!['-']);
    } else {
        assert(out@ == before + Seq::<char>::empty());
    }
    let ghost signed = out@;
    if a == INFINITY {
        out.append("inf");
        assert(out@ == before + fixed_text(x));
        return ;
    }
    let (m, e) = x.unpack();
    if e >= 0 {
        let mut n = BigNat::zero();
        n.mul_add(1, (m / 0x1_0000_0000) as u32);
        // Two steps of sixteen bits make one limb.
        n.mul_add(0x1_0000, 0);
        n.mul_add(0x1_0000, (m % 0x1_0000_0000) as u32);
        assert(n@ == m);
        let mut i: i32 = 0;
        assert(m * p2(0) == m) by (nonlinear_arith)
            requires
                p2(0) == 1,
        ;
        while i < e
            invariant
                0 <= i <= e,
                n@ == m * p2(i as int),
            decreases e - i,
        {
            proof {
                lemma_p2_step(i as int);
                assert(m * (2 * p2(i as int)) == (m * p2(i as int)) * 2) by (nonlinear_arith);
            }
            n.mul_add(2, 0);
            i += 1;
        }
        proof {
            let w: nat = (m * p2(e as int)) as nat;
            lemma_whole_tenths(x);
            assert((10 * w) / 10 == w && (10 * w) % 10 == 0);
        }
        push_big(out, n);
        out.push('.');
        out.push('0');
        assert(out@ == signed + tenths_text(tenths(x)));
    } else {
        let t: u128 = small_tenths(m, -e);
        proof {
            assert(10 * m as nat * p2(e as int) == 10 * m) by (nonlinear_arith)
                requires
                    p2(e as int) == 1,
            ;
        }
        push_tenths(out, t);
    }
    assert(out@ == before + fixed_text(x));
}

/// A whole number has no odd tenths.
proof fn lemma_whole_tenths(x: Binary64)
    requires
        x.exponent() >= 0,
    ensures
        tenths(x) == 10 * (x.mantissa() * p2(x.exponent())),
{
    let m = x.mantissa();
    let t = p2(x.exponent());
    assert(10 * m * t == 10 * (m * t)) by (nonlinear_arith);
    let v = 10 * (m * t);
    assert(p2(-x.exponent()) == 1);
    assert(v / 1 == v && v % 1 == 0);
}

/// Appends a number of tenths.
pub fn push_tenths(out: &mut String, t: u128)
    ensures
        final(out)@ == old(out)@ + tenths_text(t as nat),
{
    let ghost before = out@;
    push_decimal(out, t / 10);
    out.push('.');
    out.push(digit_char_of((t % 10) as u32));
    assert(out@ == before + tenths_text(t as nat));
}

/// `10 * m / 2^n` to the nearest integer, halves to the even one.
fn small_tenths(m: u64, n: i32) -> (t: u128)
    requires
        m < 0x20_0000_0000_0000,
        n > 0,
    ensures
        t == half_even((10 * m) as nat, p2(n as int)),
{
    let a: u128 = 10 * m as u128;
    if n >= 64 {
        proof {
            vstd::arithmetic::power2::lemma2_to64();
            lemma_p2_mono(64, n as int);
            vstd::arithmetic::div_mod::lemma_basic_div(a as int, p2(n as int) as int);
            vstd::arithmetic::div_mod::lemma_small_mod(a as nat, p2(n as int));
        }
        return 0;
    }
    let mut b: u128 = 1;
    let mut i: i32 = 0;
    while i < n
        invariant
            0 <= i <= n < 64,
            b == p2(i as int),
            1 <= b <= 0x1_0000_0000_0000_0000,
        decreases n - i,
    {
        proof {
            lemma_p2_step(i as int);
            vstd::arithmetic::power2::lemma2_to64();
            lemma_p2_mono(i + 1, 64);
        }
        b = b * 2;
        i += 1;
    }
    half_even_of(a, b)
}

/// `a / b` to the nearest integer, halves to the even one.
pub fn half_even_of(a: u128, b: u128) -> (r: u128)
    requires
        0 < b <= 0x1_0000_0000_0000_0000_0000_0000_0000,
        a <= 0x1_0000_0000_0000_0000_0000_0000_0000,
    ensures
        r == half_even(a as nat, b as nat),
{
    let q: u128 = a / b;
    let r: u128 = a % b;
    assert(q <= a) by (nonlinear_arith)
        requires
            q == a / b,
            b > 0,
    ;
    if 2 * r < b || (2 * r == b && q % 2 == 0) {
        q
    } else {
        q + 1
    }
}

} // verus!
