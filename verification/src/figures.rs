//! Numbers as they are written and shown.
//!
//! Whole numbers of up to 53 bits are exact, so what is computed, read and shown of
//! them can be stated without rounding; and a number that is written with one digit
//! behind the point is shown as it was written.

use crate::binary64::{
    half_even, lemma_bits_order, lemma_binade_exists, lemma_mantissa, lemma_nearest_zero,
    lemma_of_int, lemma_of_zero, lemma_p2_adds, lemma_p2_mono, lemma_p2_pos, lemma_pack, lt,
    nearest, of_int, p2, pack, product, quotient, truncated, Binary64, HIDDEN, INFINITY,
};
use crate::decimal::{
    after_fraction, after_whole, fixed_text, fraction_part, p10, parse_float, same_word, tenths,
    tenths_text, whole_part,
};
use crate::number::{
    all_digits, decimal, digit_char, digit_value, digits_value, lemma_decimal, parse_u64,
    strip_plus,
};
use crate::rounding::{law_rounding_keeps_order, lemma_exact_int};
use crate::text::{digit, is_digit, lemma_prefix_len_is, prefix_len};
use vstd::arithmetic::div_mod::{lemma_fundamental_div_mod, lemma_mod_bound};
use vstd::prelude::*;

verus! {

/// Rounding to an integer takes the nearest one, and the even one of two.
pub proof fn law_half_even_is_nearest(a: nat, b: nat)
    requires
        b > 0,
    ensures
        2 * b * half_even(a, b) <= 2 * a + b,
        2 * a <= 2 * b * half_even(a, b) + b,
        2 * b * half_even(a, b) == 2 * a + b || 2 * a == 2 * b * half_even(a, b) + b
            ==> half_even(a, b) % 2 == 0,
{
    let q = a / b;
    let r = a % b;
    lemma_fundamental_div_mod(a as int, b as int);
    lemma_mod_bound(a as int, b as int);
    assert(2 * b * q == 2 * (b * q)) by (nonlinear_arith);
    assert(2 * b * (q + 1) == 2 * (b * q) + 2 * b) by (nonlinear_arith);
}

/// The same ratio, however it is written, is rounded to the same number.
pub proof fn law_equal_ratios_round_alike(m1: nat, d1: nat, k1: int, m2: nat, d2: nat, k2: int)
    requires
        d1 > 0,
        d2 > 0,
        m1 * d2 * p2(k1 - k2) == m2 * d1 * p2(k2 - k1),
    ensures
        nearest(m1, d1, k1) == nearest(m2, d2, k2),
{
    law_rounding_keeps_order(m1, d1, k1, m2, d2, k2);
    law_rounding_keeps_order(m2, d2, k2, m1, d1, k1);
}

proof fn lemma_nearest_positive(m: nat, d: nat, k: int)
    requires
        d > 0,
    ensures
        nearest(m, d, k).bits <= INFINITY,
        nearest(m, d, k).with_sign(false) == nearest(m, d, k),
        !nearest(m, d, k).negative(),
{
    law_rounding_keeps_order(m, d, k, m, d, k);
}

/// A product of whole numbers is exact.
pub proof fn law_products_are_exact(a: nat, b: nat)
    requires
        a < 2 * HIDDEN,
        b < 2 * HIDDEN,
    ensures
        product(of_int(a), of_int(b)) == of_int(a * b),
{
    let x = of_int(a);
    let y = of_int(b);
    if a == 0 || b == 0 {
        lemma_of_zero();
        assert(a * b == 0) by (nonlinear_arith)
            requires
                a == 0 || b == 0,
        ;
        if a > 0 {
            lemma_of_int(a);
        }
        if b > 0 {
            lemma_of_int(b);
        }
        assert(x.mantissa() * y.mantissa() == 0) by (nonlinear_arith)
            requires
                x.mantissa() == 0 || y.mantissa() == 0,
        ;
        lemma_nearest_zero(1, x.exponent() + y.exponent());
    } else {
        lemma_of_int(a);
        lemma_of_int(b);
        let i = -x.exponent();
        let j = -y.exponent();
        lemma_p2_adds(i, j);
        let m = x.mantissa() * y.mantissa();
        assert(m == a * b * (p2(i) * p2(j))) by (nonlinear_arith)
            requires
                m == (a * p2(i)) * (b * p2(j)),
        ;
        assert(m * 1 * p2(-i - j - 0) == (a * b) * 1 * p2(0 - (-i - j)));
        law_equal_ratios_round_alike(m, 1, -i - j, a * b, 1, 0);
        lemma_nearest_positive(m, 1, -i - j);
    }
}

/// A quotient of whole numbers is the number nearest to their ratio.
pub proof fn law_quotients_are_nearest(a: nat, b: nat)
    requires
        a < 2 * HIDDEN,
        0 < b < 2 * HIDDEN,
    ensures
        quotient(of_int(a), of_int(b)) == nearest(a, b, 0),
{
    let x = of_int(a);
    let y = of_int(b);
    lemma_of_int(b);
    lemma_mantissa(y);
    if a == 0 {
        lemma_of_zero();
        lemma_nearest_zero(y.mantissa(), x.exponent() - y.exponent());
        lemma_nearest_zero(b, 0);
    } else {
        lemma_of_int(a);
        let i = -x.exponent();
        let j = -y.exponent();
        let k = x.exponent() - y.exponent();
        let m = x.mantissa();
        let d = y.mantissa();
        assert(m * b * p2(k - 0) == a * d * p2(0 - k)) by {
            if i >= j {
                lemma_p2_adds(j, i - j);
                assert(p2(k) == 1 && p2(-k) == p2(i - j));
                assert(m * b * 1 == a * d * p2(i - j)) by (nonlinear_arith)
                    requires
                        m == a * (p2(j) * p2(i - j)),
                        d == b * p2(j),
                ;
            } else {
                lemma_p2_adds(i, j - i);
                assert(p2(-k) == 1 && p2(k) == p2(j - i));
                assert(m * b * p2(j - i) == a * d * 1) by (nonlinear_arith)
                    requires
                        m == a * p2(i),
                        d == b * (p2(i) * p2(j - i)),
                ;
            }
        }
        law_equal_ratios_round_alike(m, d, k, a, b, 0);
        lemma_nearest_positive(m, d, k);
    }
}

/// A quotient that is a whole number is that number.
pub proof fn law_whole_quotients_are_exact(n: nat, b: nat)
    requires
        n * b < 2 * HIDDEN,
        0 < b < 2 * HIDDEN,
    ensures
        quotient(of_int(n * b), of_int(b)) == of_int(n),
{
    law_quotients_are_nearest(n * b, b);
    assert((n * b) * 1 * p2(0) == n * b * p2(0)) by (nonlinear_arith);
    law_equal_ratios_round_alike(n * b, b, 0, n, 1, 0);
}

/// Whole numbers are ordered as numbers.
pub proof fn law_whole_numbers_keep_their_order(a: nat, b: nat)
    requires
        a <= 2 * HIDDEN,
        b <= 2 * HIDDEN,
    ensures
        lt(of_int(a), of_int(b)) <==> a < b,
{
    lemma_exact_int(a);
    lemma_exact_int(b);
    let x = of_int(a);
    let y = of_int(b);
    lemma_bits_order(x, y);
    if a < b {
        crate::rounding::lemma_of_int_mono(a, b);
        if x.bits == y.bits {
            assert(truncated(x) == truncated(y));
        }
    } else {
        crate::rounding::lemma_of_int_mono(b, a);
    }
}

proof fn lemma_whole_prefix(w: Seq<char>, rest: Seq<char>)
    requires
        all_digits(w, 10),
        rest.len() > 0 ==> !is_digit(rest[0]),
    ensures
        prefix_len(w + rest, digit()) == w.len(),
        whole_part(w + rest) == w,
        after_whole(w + rest) == rest,
{
    let s = w + rest;
    assert forall|i: int| 0 <= i < w.len() implies digit()(#[trigger] s[i]) by {
        assert(s[i] == w[i]);
        assert(digit_value(w[i]) < 10);
    }
    if rest.len() > 0 {
        assert(s[w.len() as int] == rest[0]);
    }
    lemma_prefix_len_is(s, digit(), w.len());
    assert(s.take(w.len() as int) == w);
    assert(s.skip(w.len() as int) == rest);
}

/// Digits are read as the number nearest to what they write.
pub proof fn law_digits_are_read(w: Seq<char>)
    requires
        w.len() > 0,
        all_digits(w, 10),
    ensures
        parse_float(w) == Some(of_int(digits_value(w, 10))),
{
    let none = Seq::<char>::empty();
    assert(w + none == w);
    lemma_whole_prefix(w, none);
    assert(digit_value(w[0]) < 10);
    assert(fraction_part(w) == none);
    assert(after_fraction(w) == none);
    assert(whole_part(w) + none == w);
    let n = digits_value(w, 10);
    assert(p10(0) == 1);
    assert(p10(-0) == 1);
    assert(n * p10(0) == n) by (nonlinear_arith)
        requires
            p10(0) == 1,
    ;
    lemma_nearest_positive(n, 1, 0);
    assert(!same_word(w, seq!['n', 'a', 'n'])) by {
        if same_word(w, seq!['n', 'a', 'n']) {
            assert(crate::decimal::lower(w[0]) == seq!['n', 'a', 'n'][0]);
        }
    }
    assert(!same_word(w, seq!['i', 'n', 'f'])) by {
        if same_word(w, seq!['i', 'n', 'f']) {
            assert(crate::decimal::lower(w[0]) == seq!['i', 'n', 'f'][0]);
        }
    }
    let inf = seq!['i', 'n', 'f', 'i', 'n', 'i', 't', 'y'];
    assert(!same_word(w, inf)) by {
        if same_word(w, inf) {
            assert(crate::decimal::lower(w[0]) == inf[0]);
        }
    }
}

/// A whole number that was written is read back.
pub proof fn law_whole_numbers_are_read(n: nat)
    ensures
        parse_float(decimal(n)) == Some(of_int(n)),
{
    lemma_decimal(n);
    law_digits_are_read(decimal(n));
}

/// Digits around a point are read as the number nearest to what they write.
pub proof fn law_fractions_are_read(w: Seq<char>, f: Seq<char>)
    requires
        w.len() > 0,
        all_digits(w, 10),
        all_digits(f, 10),
    ensures
        parse_float(w + seq!['.'] + f) == Some(
            nearest(digits_value(w + f, 10), p10(f.len() as int), 0),
        ),
{
    let s = w + seq!['.'] + f;
    let none = Seq::<char>::empty();
    let t = seq!['.'] + f;
    assert(s == w + t);
    lemma_whole_prefix(w, t);
    assert(t.skip(1) == f);
    assert(f + none == f);
    lemma_whole_prefix(f, none);
    assert(fraction_part(s) == f);
    assert(after_fraction(s) == none);
    assert(s[0] == w[0]);
    assert(digit_value(w[0]) < 10);
    let n = digits_value(w + f, 10);
    let k = f.len() as int;
    assert(p10(-k) == 1);
    assert(n * p10(-k) == n);
    assert(0 - k == -k && -(-k) == k);
    lemma_p10_positive(k);
    lemma_nearest_positive(n, p10(k), 0);
    assert(!same_word(s, seq!['n', 'a', 'n'])) by {
        if same_word(s, seq!['n', 'a', 'n']) {
            assert(crate::decimal::lower(s[0]) == seq!['n', 'a', 'n'][0]);
        }
    }
    assert(!same_word(s, seq!['i', 'n', 'f'])) by {
        if same_word(s, seq!['i', 'n', 'f']) {
            assert(crate::decimal::lower(s[0]) == seq!['i', 'n', 'f'][0]);
        }
    }
    let inf = seq!['i', 'n', 'f', 'i', 'n', 'i', 't', 'y'];
    assert(!same_word(s, inf)) by {
        if same_word(s, inf) {
            assert(crate::decimal::lower(s[0]) == inf[0]);
        }
    }
}

proof fn lemma_p10_positive(k: int)
    ensures
        p10(k) >= 1,
    decreases k,
{
    if k > 0 {
        lemma_p10_positive(k - 1);
    }
}

/// The tenths of the number nearest to so many tenths are those.
pub proof fn law_tenths_are_kept(t: nat)
    requires
        t <= 0x4_0000_0000_0000,
    ensures
        nearest(t, 10, 0).is_finite(),
        !nearest(t, 10, 0).negative(),
        tenths(nearest(t, 10, 0)) == t,
{
    let x = nearest(t, 10, 0);
    if t == 0 {
        lemma_nearest_zero(10, 0);
        lemma_of_zero();
        lemma_p2_pos(1074);
        assert(10 * 0 * p2(-1074) == 0);
        assert(0nat / p2(1074) == 0) by (nonlinear_arith)
            requires
                p2(1074) >= 1,
        ;
        assert(0nat % p2(1074) == 0) by (nonlinear_arith)
            requires
                p2(1074) >= 1,
        ;
    } else {
        let e = lemma_binade_exists(t, 10, 0);
        let h = HIDDEN as nat;
        vstd::arithmetic::power2::lemma2_to64();
        vstd::arithmetic::power2::lemma2_to64_rest();
        lemma_p2_pos(e);
        lemma_p2_pos(-e);
        // The last place of such a number stands well behind the point, and that of
        // one tenth or more not in the lowest binade.
        if e >= -4 {
            lemma_p2_pos(e - 0);
            if e >= 0 {
                assert(10 * p2(e) * h <= t * 1);
                assert(10 * p2(e) * h >= 10 * h) by (nonlinear_arith)
                    requires
                        p2(e) >= 1,
                        h > 0,
                ;
            } else {
                lemma_p2_mono(-e, 4);
                assert(10 * 1 * h <= t * p2(-e));
                assert(t * p2(-e) <= t * 16) by (nonlinear_arith)
                    requires
                        p2(-e) <= 16,
                ;
            }
            assert(false);
        }
        if e < -60 {
            lemma_p2_mono(60, -e);
            assert(p2(60) == 0x1000_0000_0000_0000);
            assert(t * p2(-e) >= p2(60)) by (nonlinear_arith)
                requires
                    t >= 1,
                    p2(-e) >= p2(60),
            ;
            assert(false);
        }
        let p = p2(-e);
        lemma_p2_mono(5, -e);
        assert(p >= 32);
        let a = t * p;
        let q = half_even(a, 10);
        assert(10 * p2(e - 0) == 10);
        law_half_even_is_nearest(a, 10);
        crate::binary64::lemma_half_even_bounds(a, 10, h, 2 * h);
        lemma_pack(q, e);
        assert(x == pack(q, e));
        if q < 2 * h {
            assert(x.mantissa() == q && x.exponent() == e);
            assert(10 * q * p2(e) == 10 * q) by (nonlinear_arith)
                requires
                    p2(e) == 1,
            ;
            lemma_half_even_close(10 * q, p, t);
        } else {
            assert(x.mantissa() == h && x.exponent() == e + 1);
            crate::binary64::lemma_p2_step(-e - 1);
            let p1 = p2(-e - 1);
            assert(p == 2 * p1);
            assert(10 * h * p2(e + 1) == 10 * h) by (nonlinear_arith)
                requires
                    p2(e + 1) == 1,
            ;
            assert(a == 2 * (t * p1)) by (nonlinear_arith)
                requires
                    a == t * p,
                    p == 2 * p1,
            ;
            lemma_half_even_close(10 * h, p1, t);
        }
    }
}

proof fn lemma_half_even_close(a: nat, b: nat, t: nat)
    requires
        b > 0,
        2 * a < 2 * (t * b) + b,
        2 * (t * b) < 2 * a + b,
    ensures
        half_even(a, b) == t,
{
    let q = half_even(a, b);
    law_half_even_is_nearest(a, b);
    assert(q == t) by (nonlinear_arith)
        requires
            b > 0,
            2 * a < 2 * (t * b) + b,
            2 * (t * b) < 2 * a + b,
            2 * b * q <= 2 * a + b,
            2 * a <= 2 * b * q + b,
    ;
}

/// A number with one digit behind the point is shown as it was written.
pub proof fn law_shown_as_written(n: nat, d: nat)
    requires
        10 * n + d <= 0x4_0000_0000_0000,
        d < 10,
    ensures
        parse_float(decimal(n) + seq!['.'] + decimal(d)) == Some(nearest(10 * n + d, 10, 0)),
        fixed_text(nearest(10 * n + d, 10, 0)) == decimal(n) + seq!['.'] + decimal(d),
{
    let w = decimal(n);
    let f = decimal(d);
    lemma_decimal(n);
    lemma_decimal(d);
    assert(f == seq![digit_char(d)]);
    law_fractions_are_read(w, f);
    assert((w + f).drop_last() == w);
    assert((w + f).last() == digit_char(d));
    assert(digits_value(w + f, 10) == n * 10 + digit_value(digit_char(d)));
    assert(p10(0) == 1);
    assert(p10(1) == 10);
    let t = 10 * n + d;
    law_tenths_are_kept(t);
    assert(t / 10 == n && t % 10 == d);
    assert(Seq::<char>::empty() + tenths_text(t) == tenths_text(t));
    assert(tenths_text(t) =~= decimal(n) + seq!['.'] + decimal(d));
}

/// A whole number is shown with a zero behind the point.
pub proof fn law_whole_numbers_are_shown(n: nat)
    requires
        10 * n <= 0x4_0000_0000_0000,
    ensures
        fixed_text(of_int(n)) == decimal(n) + seq!['.', '0'],
{
    assert((10 * n) * 1 * p2(0) == n * 10 * p2(0)) by (nonlinear_arith);
    law_equal_ratios_round_alike(10 * n, 10, 0, n, 1, 0);
    law_shown_as_written(n, 0);
    assert(decimal(0) =~= seq!['0']);
    assert(decimal(n) + seq!['.'] + decimal(0) =~= decimal(n) + seq!['.', '0']);
}

/// A greater number is never shown with fewer tenths.
pub proof fn law_tenths_grow(x: Binary64, y: Binary64)
    requires
        x.bits <= y.bits < INFINITY,
    ensures
        tenths(x) <= tenths(y),
{
    crate::rounding::lemma_bits_no_more(x, y);
    let (m1, e1) = (x.mantissa(), x.exponent());
    let (m2, e2) = (y.mantissa(), y.exponent());
    crate::rounding::lemma_no_more_at(m1, 1, e1, m2, 1, e2, 0);
    lemma_p2_pos(-e1);
    lemma_p2_pos(-e2);
    let a1 = m1 * p2(e1);
    let b1 = p2(-e1);
    let a2 = m2 * p2(e2);
    let b2 = p2(-e2);
    assert(a1 * b2 <= a2 * b1) by {
        assert(m1 * p2(e1 - 0) * (1 * p2(0 - e2)) <= m2 * p2(e2 - 0) * (1 * p2(0 - e1)));
    }
    assert((10 * m1 * p2(e1)) * b2 <= (10 * m2 * p2(e2)) * b1) by (nonlinear_arith)
        requires
            (m1 * p2(e1)) * b2 <= (m2 * p2(e2)) * b1,
    ;
    crate::rounding::lemma_half_even_mono(10 * m1 * p2(e1), b1, 10 * m2 * p2(e2), b2);
}

/// A minus sign in front negates a number, and a plus sign changes nothing.
pub proof fn law_signs_are_read(w: Seq<char>)
    requires
        w.len() > 0,
        all_digits(w, 10),
    ensures
        parse_float(seq!['-'] + w) == Some(of_int(digits_value(w, 10)).with_sign(true)),
        parse_float(seq!['+'] + w) == parse_float(w),
{
    law_digits_are_read(w);
    assert((seq!['-'] + w).skip(1) == w);
    assert((seq!['+'] + w).skip(1) == w);
    lemma_no_number_word(w);
    assert(digit_value(w[0]) < 10);
    lemma_nearest_positive(digits_value(w, 10), 1, 0);
}

proof fn lemma_no_number_word(s: Seq<char>)
    requires
        s.len() > 0,
        digit_value(s[0]) < 10,
    ensures
        !same_word(s, seq!['n', 'a', 'n']),
        !same_word(s, seq!['i', 'n', 'f']),
        !same_word(s, seq!['i', 'n', 'f', 'i', 'n', 'i', 't', 'y']),
{
    if same_word(s, seq!['n', 'a', 'n']) {
        assert(crate::decimal::lower(s[0]) == seq!['n', 'a', 'n'][0]);
    }
    if same_word(s, seq!['i', 'n', 'f']) {
        assert(crate::decimal::lower(s[0]) == seq!['i', 'n', 'f'][0]);
    }
    let inf = seq!['i', 'n', 'f', 'i', 'n', 'i', 't', 'y'];
    if same_word(s, inf) {
        assert(crate::decimal::lower(s[0]) == inf[0]);
    }
}

/// A number with an exponent is that many tens greater, or less.
pub proof fn law_exponents_are_read(w: Seq<char>, k: nat)
    requires
        w.len() > 0,
        all_digits(w, 10),
    ensures
        parse_float(w + seq!['e'] + decimal(k)) == Some(
            nearest(digits_value(w, 10) * p10(k as int), 1, 0),
        ),
        parse_float(w + seq!['e', '-'] + decimal(k)) == Some(
            nearest(digits_value(w, 10), p10(k as int), 0),
        ),
{
    let n = digits_value(w, 10);
    let d = decimal(k);
    lemma_decimal(k);
    lemma_p10_positive(k as int);
    assert(digit_value(w[0]) < 10);
    assert forall|i: int| 0 <= i < d.len() implies is_digit(#[trigger] d[i]) by {
        assert(digit_value(d[i]) < 10);
    }
    let s = w + seq!['e'] + d;
    let t = seq!['e'] + d;
    assert(s == w + t);
    lemma_whole_prefix(w, t);
    assert(t.skip(1) == d);
    assert(s[0] == w[0]);
    lemma_no_number_word(s);
    assert(whole_part(s) + fraction_part(s) =~= w);
    assert(d[0] != '-' && d[0] != '+');
    assert(p10(-(k as int)) == 1);
    lemma_nearest_positive(n * p10(k as int), 1, 0);
    let s2 = w + seq!['e', '-'] + d;
    let t2 = seq!['e', '-'] + d;
    assert(s2 == w + t2);
    lemma_whole_prefix(w, t2);
    assert(t2.skip(1).skip(1) == d);
    assert(s2[0] == w[0]);
    lemma_no_number_word(s2);
    assert(whole_part(s2) + fraction_part(s2) =~= w);
    assert(n * p10(-(k as int)) == n) by (nonlinear_arith)
        requires
            p10(-(k as int)) == 1,
    ;
    lemma_nearest_positive(n, p10(k as int), 0);
}

/// A number that does not fit is refused, and so is anything but digits.
pub proof fn law_only_numbers_that_fit_are_read(n: nat, s: Seq<char>)
    ensures
        parse_u64(decimal(n)) is Some <==> n <= u64::MAX,
        parse_u64(s) is Some && s.len() > 0 && s[0] != '+' ==> all_digits(s, 10),
        parse_u64(Seq::empty()) is None,
{
    lemma_decimal(n);
    let d = decimal(n);
    assert(digit_value(d[0]) < 10);
    assert(strip_plus(d) == d);
}

/// A negative number is shown with a minus sign, and what is no number says so.
pub proof fn law_signs_are_shown(x: Binary64)
    requires
        !x.negative(),
    ensures
        x.is_finite() ==> fixed_text(x.with_sign(true)) == seq!['-'] + fixed_text(x),
        x.is_nan() ==> fixed_text(x) == seq!['N', 'a', 'N'],
        x.is_infinite() ==> fixed_text(x) == seq!['i', 'n', 'f'],
{
    let y = x.with_sign(true);
    let none = Seq::<char>::empty();
    if x.is_finite() {
        assert(y.magnitude() == x.magnitude());
        assert(none + tenths_text(tenths(x)) == tenths_text(tenths(x)));
    }
    assert(none + seq!['i', 'n', 'f'] == seq!['i', 'n', 'f']);
}

} // verus!
