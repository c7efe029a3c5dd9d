//! Rounding keeps the order of numbers.

use crate::binary64::{
    half_even, in_binade, lemma_binade_exists, lemma_binade_shift, lemma_bits_order,
    lemma_half_even_bounds, lemma_mantissa, lemma_nearest_at, lemma_nearest_zero, lemma_of_int,
    lemma_of_zero, lemma_p2_adds, lemma_p2_pos, lemma_p2_step, lemma_pack, lt, nearest, of_int, one,
    p2, pack, product, quotient, rounded, truncated, zero, Binary64, HIDDEN, INFINITY, ONE,
};
use vstd::prelude::*;

verus! {

/// The powers of two between two scales.
proof fn lemma_scales(x: int, y: int)
    ensures
        p2(x) * p2(-y) * p2(y - x) == p2(y) * p2(-x) * p2(x - y),
{
    if x < y {
        lemma_scales_up(x, y);
    } else {
        lemma_scales_up(y, x);
        assert(p2(x) * p2(-y) * p2(y - x) == p2(y) * p2(-x) * p2(x - y)) by (nonlinear_arith)
            requires
                p2(y) * p2(-x) * p2(x - y) == p2(x) * p2(-y) * p2(y - x),
        ;
    }
}

proof fn lemma_scales_up(x: int, y: int)
    requires
        x <= y,
    ensures
        p2(x) * p2(-y) * p2(y - x) == p2(y) * p2(-x) * p2(x - y),
{
    assert(p2(x - y) == 1);
    if x >= 0 {
        lemma_p2_adds(x, y - x);
        assert(p2(-y) == 1 && p2(-x) == 1);
        assert(p2(x) * 1 * p2(y - x) == p2(y) * 1 * 1) by (nonlinear_arith)
            requires
                p2(y) == p2(x) * p2(y - x),
        ;
    } else if y <= 0 {
        lemma_p2_adds(-y, y - x);
        assert(p2(x) == 1 && p2(y) == 1);
        assert(1 * p2(-y) * p2(y - x) == 1 * p2(-x) * 1) by (nonlinear_arith)
            requires
                p2(-x) == p2(-y) * p2(y - x),
        ;
    } else {
        lemma_p2_adds(y, -x);
        assert(p2(x) == 1 && p2(-y) == 1);
        assert(1 * 1 * p2(y - x) == p2(y) * p2(-x) * 1) by (nonlinear_arith)
            requires
                p2(y - x) == p2(y) * p2(-x),
        ;
    }
}

/// The order of `m1 / d1 * 2^k1` and `m2 / d2 * 2^k2`.
pub open spec fn no_more(m1: nat, d1: nat, k1: int, m2: nat, d2: nat, k2: int) -> bool {
    m1 * d2 * p2(k1 - k2) <= m2 * d1 * p2(k2 - k1)
}

/// The order is the same at every scale.
pub proof fn lemma_no_more_at(m1: nat, d1: nat, k1: int, m2: nat, d2: nat, k2: int, e: int)
    requires
        no_more(m1, d1, k1, m2, d2, k2),
    ensures
        (m1 * p2(k1 - e)) * (d2 * p2(e - k2)) <= (m2 * p2(k2 - e)) * (d1 * p2(e - k1)),
{
    let x = k1 - e;
    let y = k2 - e;
    lemma_scales(x, y);
    assert(x - y == k1 - k2 && y - x == k2 - k1);
    assert(-x == e - k1 && -y == e - k2);
    lemma_p2_pos(y - x);
    let a = p2(x);
    let b = p2(-y);
    let c = p2(x - y);
    let d = p2(y - x);
    let f = p2(y);
    let g = p2(-x);
    assert((m1 * a) * (d2 * b) <= (m2 * f) * (d1 * g)) by (nonlinear_arith)
        requires
            m1 * d2 * c <= m2 * d1 * d,
            a * b * d == f * g * c,
            d >= 1,
    {
        let u = m1 * d2;
        let v = m2 * d1;
        let ab = a * b;
        let fg = f * g;
        assert((m1 * a) * (d2 * b) == u * ab);
        assert((m2 * f) * (d1 * g) == v * fg);
        assert(u * c <= v * d);
        assert(ab * d == fg * c);
        assert((u * c) * fg <= (v * d) * fg);
        assert((u * c) * fg == u * (fg * c));
        assert(u * (ab * d) == (u * ab) * d);
        assert((v * d) * fg == (v * fg) * d);
        assert((u * ab) * d <= (v * fg) * d);
        assert(u * ab <= v * fg);
    }
}

/// Rounding to an integer keeps the order.
pub proof fn lemma_half_even_mono(a1: nat, b1: nat, a2: nat, b2: nat)
    requires
        b1 > 0,
        b2 > 0,
        a1 * b2 <= a2 * b1,
    ensures
        half_even(a1, b1) <= half_even(a2, b2),
{
    let q1 = a1 / b1;
    let r1 = a1 % b1;
    let q2 = a2 / b2;
    let r2 = a2 % b2;
    vstd::arithmetic::div_mod::lemma_fundamental_div_mod(a1 as int, b1 as int);
    vstd::arithmetic::div_mod::lemma_mod_bound(a1 as int, b1 as int);
    vstd::arithmetic::div_mod::lemma_fundamental_div_mod(a2 as int, b2 as int);
    vstd::arithmetic::div_mod::lemma_mod_bound(a2 as int, b2 as int);
    assert((b1 * q1 + r1) * b2 == q1 * (b1 * b2) + r1 * b2) by (nonlinear_arith);
    assert((b2 * q2 + r2) * b1 == q2 * (b1 * b2) + r2 * b1) by (nonlinear_arith);
    let bb = b1 * b2;
    let s1 = r1 * b2;
    let s2 = r2 * b1;
    assert(0 <= s1 < bb && 0 <= s2 < bb) by (nonlinear_arith)
        requires
            s1 == r1 * b2,
            s2 == r2 * b1,
            bb == b1 * b2,
            0 <= r1 < b1,
            0 <= r2 < b2,
    ;
    assert(q1 * bb + s1 <= q2 * bb + s2);
    assert(q1 <= q2) by (nonlinear_arith)
        requires
            q1 * bb + s1 <= q2 * bb + s2,
            0 <= s1,
            s2 < bb,
    ;
    if q1 == q2 {
        assert(s1 <= s2);
        assert((2 * r1 < b1) == (2 * s1 < bb) && (2 * r1 == b1) == (2 * s1 == bb))
            by (nonlinear_arith)
            requires
                s1 == r1 * b2,
                bb == b1 * b2,
                b2 > 0,
        ;
        assert((2 * r2 < b2) == (2 * s2 < bb) && (2 * r2 == b2) == (2 * s2 == bb))
            by (nonlinear_arith)
            requires
                s2 == r2 * b1,
                bb == b1 * b2,
                b1 > 0,
        ;
    }
}

proof fn lemma_pos(a: nat, b: nat)
    requires
        a > 0,
        b > 0,
    ensures
        a * b > 0,
{
    assert(a * b > 0) by (nonlinear_arith)
        requires
            a > 0,
            b > 0,
    ;
}

/// Rounding to the nearest number keeps the order.
pub proof fn law_rounding_keeps_order(m1: nat, d1: nat, k1: int, m2: nat, d2: nat, k2: int)
    requires
        d1 > 0,
        d2 > 0,
        no_more(m1, d1, k1, m2, d2, k2),
    ensures
        nearest(m1, d1, k1).bits <= nearest(m2, d2, k2).bits <= INFINITY,
{
    let e1 = lemma_binade_exists(m1, d1, k1);
    let e2 = lemma_binade_exists(m2, d2, k2);
    let h = HIDDEN as nat;
    let a1 = m1 * p2(k1 - e1);
    let b1 = d1 * p2(e1 - k1);
    let a2 = m2 * p2(k2 - e2);
    let b2 = d2 * p2(e2 - k2);
    lemma_p2_pos(e1 - k1);
    lemma_p2_pos(e2 - k2);
    lemma_pos(d1, p2(e1 - k1));
    lemma_pos(d2, p2(e2 - k2));
    let w1 = half_even(a1, b1);
    let w2 = half_even(a2, b2);
    if e1 == e2 {
        lemma_no_more_at(m1, d1, k1, m2, d2, k2, e1);
        lemma_half_even_mono(a1, b1, a2, b2);
    } else if e1 < e2 {
        lemma_half_even_bounds(a1, b1, 0, 2 * h);
        lemma_half_even_bounds(a2, b2, h, 2 * h);
        assert(w1 + (e1 + 1074) * HIDDEN <= w2 + (e2 + 1074) * HIDDEN) by (nonlinear_arith)
            requires
                w1 <= 2 * h,
                w2 >= h,
                h == HIDDEN,
                e1 + 1 <= e2,
        ;
    } else {
        // The first number would be greater.
        lemma_no_more_at(m1, d1, k1, m2, d2, k2, e2);
        let c1 = m1 * p2(k1 - e2);
        let f1 = d1 * p2(e2 - k1);
        lemma_p2_pos(e2 - k1);
        lemma_pos(d1, p2(e2 - k1));
        lemma_lower_scale(m1, d1, k1, e1, e2);
        assert(c1 >= f1 * (2 * h));
        assert(a2 < b2 * (2 * h));
        assert(!(c1 * b2 <= a2 * f1)) by (nonlinear_arith)
            requires
                c1 >= f1 * (2 * h),
                a2 < b2 * (2 * h),
                f1 > 0,
                b2 > 0,
        {
            assert(c1 * b2 >= f1 * (2 * h) * b2);
            assert(a2 * f1 < b2 * (2 * h) * f1);
        }
    }
    assert((e1 + 1074) * HIDDEN >= 0 && (e2 + 1074) * HIDDEN >= 0) by (nonlinear_arith)
        requires
            e1 >= -1074,
            e2 >= -1074,
            HIDDEN > 0,
    ;
}

/// A number that has 53 bits before the point has more at a lower scale.
proof fn lemma_lower_scale(m: nat, d: nat, k: int, e1: int, e2: int)
    requires
        d > 0,
        e2 < e1,
        m * p2(k - e1) >= d * p2(e1 - k) * HIDDEN as nat,
    ensures
        m * p2(k - e2) >= d * p2(e2 - k) * (2 * HIDDEN as nat),
{
    let x = k - e1;
    let y = k - e2;
    lemma_scales(x, y);
    assert(x - y < 0);
    assert(p2(x - y) == 1);
    lemma_p2_step(y - x - 1);
    lemma_p2_pos(y - x - 1);
    lemma_p2_pos(-x);
    lemma_p2_pos(-y);
    let a = p2(x);
    let b = p2(-y);
    let t = p2(y - x);
    let f = p2(y);
    let g = p2(-x);
    let h = HIDDEN as nat;
    assert(-x == e1 - k && -y == e2 - k);
    assert(m * f >= d * b * (2 * h)) by (nonlinear_arith)
        requires
            a * b * t == f * g * 1,
            t >= 2,
            g >= 1,
            b >= 1,
            m * a >= d * g * h,
    {
        assert((m * f) * g == m * (a * b * t));
        assert(m * (a * b * t) == (m * a) * (b * t));
        assert((m * a) * (b * t) >= (d * g * h) * (b * t));
        assert((d * g * h) * (b * t) == (d * b * h * t) * g);
        assert((m * f) * g >= (d * b * h * t) * g);
        assert(m * f >= d * b * h * t);
        assert(d * b * h * t >= d * b * (2 * h));
    }
}

/// Greater integers round to numbers that are no less.
pub proof fn lemma_of_int_mono(a: nat, b: nat)
    requires
        a <= b,
    ensures
        of_int(a).bits <= of_int(b).bits,
{
    assert(no_more(a, 1, 0, b, 1, 0)) by {
        assert(a * 1 * p2(0) <= b * 1 * p2(0)) by (nonlinear_arith)
            requires
                a <= b,
        ;
    }
    law_rounding_keeps_order(a, 1, 0, b, 1, 0);
}

/// The order of bits as an order of scaled mantissas.
pub proof fn lemma_bits_no_more(x: Binary64, y: Binary64)
    requires
        x.bits <= y.bits,
        y.bits < INFINITY,
    ensures
        no_more(x.mantissa(), 1, x.exponent(), y.mantissa(), 1, y.exponent()),
{
    lemma_bits_order(y, x);
    let a = x.mantissa();
    let b = y.mantissa();
    assert(a * 1 == a && b * 1 == b);
}

/// A greater factor gives a product that is no less.
pub proof fn lemma_product_mono(x1: Binary64, x2: Binary64, y: Binary64)
    requires
        x1.bits <= x2.bits,
        x2.bits < INFINITY,
        y.bits < INFINITY,
    ensures
        product(x1, y).bits <= product(x2, y).bits <= INFINITY,
{
    lemma_bits_no_more(x1, x2);
    let m = y.mantissa();
    let k = y.exponent();
    let k1 = x1.exponent() + k;
    let k2 = x2.exponent() + k;
    assert(k1 - k2 == x1.exponent() - x2.exponent());
    assert(no_more(x1.mantissa() * m, 1, k1, x2.mantissa() * m, 1, k2)) by {
        let a = x1.mantissa();
        let b = x2.mantissa();
        let s = p2(k1 - k2);
        let t = p2(k2 - k1);
        assert((a * m) * 1 * s <= (b * m) * 1 * t) by (nonlinear_arith)
            requires
                a * 1 * s <= b * 1 * t,
        {
            assert((a * m) * 1 * s == (a * 1 * s) * m);
            assert((b * m) * 1 * t == (b * 1 * t) * m);
        }
    }
    law_rounding_keeps_order(x1.mantissa() * m, 1, k1, x2.mantissa() * m, 1, k2);
}

/// A greater dividend gives a quotient that is no less.
pub proof fn lemma_quotient_mono(x1: Binary64, x2: Binary64, y: Binary64)
    requires
        x1.bits <= x2.bits,
        x2.bits < INFINITY,
        0 < y.bits < INFINITY,
    ensures
        quotient(x1, y).bits <= quotient(x2, y).bits <= INFINITY,
{
    lemma_bits_no_more(x1, x2);
    lemma_mantissa(y);
    let d = y.mantissa();
    let k1 = x1.exponent() - y.exponent();
    let k2 = x2.exponent() - y.exponent();
    assert(k1 - k2 == x1.exponent() - x2.exponent());
    assert(no_more(x1.mantissa(), d, k1, x2.mantissa(), d, k2)) by {
        let a = x1.mantissa();
        let b = x2.mantissa();
        let s = p2(k1 - k2);
        let t = p2(k2 - k1);
        assert(a * d * s <= b * d * t) by (nonlinear_arith)
            requires
                a * 1 * s <= b * 1 * t,
        {
            assert(a * d * s == (a * 1 * s) * d);
            assert(b * d * t == (b * 1 * t) * d);
        }
    }
    law_rounding_keeps_order(x1.mantissa(), d, k1, x2.mantissa(), d, k2);
}

/// Cutting off and rounding to an integer keep the order.
pub proof fn lemma_integer_mono(x: Binary64, y: Binary64)
    requires
        x.bits <= y.bits <= INFINITY,
    ensures
        truncated(x) <= truncated(y),
        rounded(x) <= rounded(y),
{
    if y.bits < INFINITY {
        lemma_bits_no_more(x, y);
        let (m1, e1) = (x.mantissa(), x.exponent());
        let (m2, e2) = (y.mantissa(), y.exponent());
        lemma_no_more_at(m1, 1, e1, m2, 1, e2, 0);
        lemma_p2_pos(-e1);
        lemma_p2_pos(-e2);
        let a1 = m1 * p2(e1);
        let b1 = p2(-e1);
        let a2 = m2 * p2(e2);
        let b2 = p2(-e2);
        assert(e1 - 0 == e1 && 0 - e1 == -e1 && e2 - 0 == e2 && 0 - e2 == -e2);
        assert(a1 * b2 <= a2 * b1) by (nonlinear_arith)
            requires
                a1 * (1 * b2) <= a2 * (1 * b1),
        ;
        lemma_div_mono(a1, b1, a2, b2);
        let c1 = 2 * a1 + b1;
        let c2 = 2 * a2 + b2;
        assert(c1 * (2 * b2) <= c2 * (2 * b1)) by (nonlinear_arith)
            requires
                a1 * b2 <= a2 * b1,
                c1 == 2 * a1 + b1,
                c2 == 2 * a2 + b2,
        ;
        lemma_div_mono(c1, 2 * b1, c2, 2 * b2);
        assert(2 * m1 * p2(e1) == 2 * a1) by (nonlinear_arith)
            requires
                a1 == m1 * p2(e1),
        ;
        assert(2 * m2 * p2(e2) == 2 * a2) by (nonlinear_arith)
            requires
                a2 == m2 * p2(e2),
        ;
    }
}

proof fn lemma_div_mono(a1: nat, b1: nat, a2: nat, b2: nat)
    requires
        b1 > 0,
        b2 > 0,
        a1 * b2 <= a2 * b1,
    ensures
        a1 / b1 <= a2 / b2,
{
    let q1 = a1 / b1;
    let q2 = a2 / b2;
    let r1 = a1 % b1;
    let r2 = a2 % b2;
    vstd::arithmetic::div_mod::lemma_fundamental_div_mod(a1 as int, b1 as int);
    vstd::arithmetic::div_mod::lemma_mod_bound(a1 as int, b1 as int);
    vstd::arithmetic::div_mod::lemma_fundamental_div_mod(a2 as int, b2 as int);
    vstd::arithmetic::div_mod::lemma_mod_bound(a2 as int, b2 as int);
    assert(q1 <= q2) by (nonlinear_arith)
        requires
            a1 == b1 * q1 + r1,
            a2 == b2 * q2 + r2,
            0 <= r1 < b1,
            0 <= r2 < b2,
            a1 * b2 <= a2 * b1,
    {
        if q2 + 1 <= q1 {
            assert(a1 >= b1 * (q2 + 1));
            assert(a1 * b2 >= b1 * (q2 + 1) * b2);
            assert(a2 < b2 * (q2 + 1));
            assert(a2 * b1 < b2 * (q2 + 1) * b1);
        }
    }
}

/// What is not less than zero and not greater than one has bits up to those of
/// one, or is a zero.
pub proof fn lemma_unit_bits(x: Binary64)
    requires
        !x.is_nan(),
        !lt(x, zero()),
        !lt(one(), x),
    ensures
        x.is_zero() || x.bits <= ONE,
{
    if x.is_finite() {
        lemma_bits_order(one(), x);
    }
}

/// An integer of at most 53 bits is a number itself, and rounds to itself.
pub proof fn lemma_exact_int(n: nat)
    requires
        n <= 2 * HIDDEN,
    ensures
        rounded(of_int(n)) == n,
        truncated(of_int(n)) == n,
        of_int(n).bits < INFINITY,
{
    if n == 0 {
        lemma_of_zero();
        lemma_p2_pos(1074);
        let d = p2(1074);
        assert(0 * p2(-1074) == 0);
        vstd::arithmetic::div_mod::lemma_basic_div(0, d as int);
        assert((2 * 0 * p2(-1074) + d) / (2 * d) == 0) by {
            assert(2 * 0 * p2(-1074) == 0);
            vstd::arithmetic::div_mod::lemma_basic_div(d as int, (2 * d) as int);
        }
    } else {
        lemma_of_int(n);
        let x = of_int(n);
        let e = x.exponent();
        if n < 2 * HIDDEN {
            let d = p2(-e);
            lemma_p2_pos(-e);
            assert(p2(e) == 1);
            let m = x.mantissa();
            assert(m * 1 == n * d);
            vstd::arithmetic::div_mod::lemma_div_multiples_vanish(n as int, d as int);
            vstd::arithmetic::mul::lemma_mul_is_commutative(n as int, d as int);
            assert((2 * m * 1 + d) / (2 * d) == n) by {
                assert(2 * m * 1 + d == n * (2 * d) + d) by (nonlinear_arith)
                    requires
                        m * 1 == n * d,
                ;
                vstd::arithmetic::div_mod::lemma_fundamental_div_mod_converse(
                    (2 * m * 1 + d) as int,
                    (2 * d) as int,
                    n as int,
                    d as int,
                );
            }
        } else {
            lemma_top_int();
        }
    }
}

/// The least integer of 54 bits.
proof fn lemma_top_int()
    ensures
        of_int(2 * HIDDEN as nat).mantissa() == HIDDEN,
        of_int(2 * HIDDEN as nat).exponent() == 1,
        rounded(of_int(2 * HIDDEN as nat)) == 2 * HIDDEN,
        truncated(of_int(2 * HIDDEN as nat)) == 2 * HIDDEN,
{
    let n = 2 * HIDDEN as nat;
    lemma_p2_step(0);
    assert(p2(1) == 2 && p2(-1) == 1);
    assert(n * p2(0 - 1) == n && 1 * p2(1 - 0) == 2);
    assert(in_binade(n, 1, 0, 1));
    lemma_nearest_at(n, 1, 0, 1);
    assert((n * 1) / 2 == HIDDEN && (n * 1) % 2 == 0);
    assert(half_even(n * p2(0 - 1), 1 * p2(1 - 0)) == HIDDEN);
    lemma_pack(HIDDEN as nat, 1);
    let m = HIDDEN as nat;
    assert(m * 2 / 1 == n);
    assert((2 * m * 2 + 1) / 2 == n);
}

/// A share of an integer, between nothing and all of it, rounds to no more
/// than the integer.
pub proof fn lemma_share(n: nat, x: Binary64)
    requires
        n <= 2 * HIDDEN,
        x.is_zero() || x.bits <= ONE,
    ensures
        rounded(product(of_int(n), x)) <= n,
{
    lemma_exact_int(n);
    let b = of_int(n);
    if x.is_zero() {
        let k = b.exponent() + x.exponent();
        lemma_mantissa(x);
        lemma_mantissa(b);
        assert(b.mantissa() * 0 == 0);
        lemma_nearest_zero(1, k);
        lemma_exact_int(0);
        lemma_of_zero();
    } else {
        // Against the whole: one time the integer is the integer.
        lemma_bits_no_more(x, one());
        let m = b.mantissa();
        let k = b.exponent();
        let xm = x.mantissa();
        let xe = x.exponent();
        let om = one().mantissa();
        let oe = one().exponent();
        assert(om == HIDDEN && oe == -52);
        assert(no_more(m * xm, 1, k + xe, n, 1, 0)) by {
            lemma_share_order(n, m, k, xm, xe);
        }
        law_rounding_keeps_order(m * xm, 1, k + xe, n, 1, 0);
        assert(product(b, x) == nearest(m * xm, 1, k + xe).with_sign(false));
        lemma_integer_mono(product(b, x), b);
    }
}

proof fn lemma_share_order(n: nat, m: nat, k: int, xm: nat, xe: int)
    requires
        n <= 2 * HIDDEN,
        m == of_int(n).mantissa(),
        k == of_int(n).exponent(),
        no_more(xm, 1, xe, HIDDEN as nat, 1, -52),
    ensures
        no_more(m * xm, 1, k + xe, n, 1, 0),
{
    // Everything at the scale of the smaller exponent.
    let f = k + xe;
    vstd::arithmetic::power2::lemma2_to64();
    vstd::arithmetic::power2::lemma2_to64_rest();
    assert(p2(52) == HIDDEN);
    if n == 0 {
        lemma_of_zero();
        assert(m * xm == 0) by (nonlinear_arith)
            requires
                m == 0,
        ;
        assert(0 * 1 * p2(f - 0) <= 0 * 1 * p2(0 - f));
    } else {
        lemma_of_int(n);
        if n == 2 * HIDDEN {
            lemma_top_int();
            lemma_p2_step(0);
        }
        // m * 2^k is n.
        assert(m * p2(k) == n * p2(-k)) by {
            if n < 2 * HIDDEN {
                assert(p2(k) == 1);
                assert(m * 1 == m);
            } else {
                assert(p2(1) == 2 && p2(-1) == 1);
            }
        }
        // xm * 2^xe is at most one.
        lemma_no_more_at(xm, 1, xe, HIDDEN as nat, 1, -52, 0);
        assert(p2(-52 - 0) == 1 && p2(0 - -52) == p2(52));
        let h = HIDDEN as nat;
        let u = p2(xe);
        let v = p2(-xe);
        assert(xm * u <= v) by (nonlinear_arith)
            requires
                (xm * u) * (1 * h) <= (h * 1) * (1 * v),
                h > 0,
        ;
        // Both together.
        lemma_scales(k, -xe);
        assert(k - -xe == f && -xe - k == -f);
        let a = p2(k);
        let b = p2(-k);
        let c = p2(f);
        let d = p2(-f);
        assert(a * u * d == v * b * c);
        lemma_p2_pos(k);
        lemma_p2_pos(xe);
        lemma_p2_pos(-xe);
        lemma_p2_pos(-k);
        assert((m * xm) * 1 * c <= n * 1 * d) by (nonlinear_arith)
            requires
                m * a == n * b,
                xm * u <= v,
                a * u * d == v * b * c,
                a >= 1,
                u >= 1,
                v >= 1,
                b >= 1,
        {
            assert((m * xm * c) * (v * b) == (m * xm) * (v * b * c));
            assert((m * xm) * (a * u * d) == (m * a) * (xm * u) * d);
            assert((m * a) * (xm * u) * d <= (m * a) * v * d);
            assert((m * a) * v * d == (n * b) * v * d);
            assert((n * b) * v * d == (n * d) * (v * b));
            assert((m * xm * c) * (v * b) <= (n * d) * (v * b));
            assert(v * b >= 1);
            assert(m * xm * c <= n * d);
        }
    }
}

/// A number divided by itself is one.
pub proof fn lemma_self_quotient(x: Binary64)
    requires
        0 < x.bits < INFINITY,
    ensures
        quotient(x, x) == one(),
{
    lemma_mantissa(x);
    let m = x.mantissa();
    vstd::arithmetic::power2::lemma2_to64();
    vstd::arithmetic::power2::lemma2_to64_rest();
    let h = HIDDEN as nat;
    assert(p2(52) == h && p2(-52) == 1);
    assert(m * h < m * (2 * h) && m * h <= m * h) by (nonlinear_arith)
        requires
            m > 0,
            h > 0,
    ;
    assert(p2(0 - -52) == h && p2(-52 - 0) == 1);
    assert(m * 1 == m);
    assert(in_binade(m, m, 0, -52));
    lemma_nearest_at(m, m, 0, -52);
    vstd::arithmetic::div_mod::lemma_fundamental_div_mod_converse(
        (m * h) as int,
        m as int,
        h as int,
        0,
    );
    assert(half_even(m * h, m * 1) == h);
    assert(pack(h, -52).bits == ONE);
}

/// One time a number is the number.
pub proof fn lemma_times_one(x: Binary64)
    requires
        x.bits < INFINITY,
    ensures
        product(x, one()) == x,
{
    lemma_mantissa(x);
    let m = x.mantissa();
    let k = x.exponent();
    vstd::arithmetic::power2::lemma2_to64();
    vstd::arithmetic::power2::lemma2_to64_rest();
    let h = HIDDEN as nat;
    assert(p2(52) == h && p2(0) == 1);
    assert(one().mantissa() == h && one().exponent() == -52);
    let e = lemma_binade_exists(m * h, 1, k - 52);
    lemma_binade_shift(m, 1, k, 52, e);
    assert(p2(k - k) == 1);
    assert(in_binade(m, 1, k, k));
    lemma_nearest_at(m, 1, k, k);
    assert(m * 1 == m && m / 1 == m && m % 1 == 0);
    assert(half_even(m * 1, 1 * 1) == m);
    let b = x.bits;
    assert(b == b / HIDDEN * HIDDEN + b % HIDDEN) by (nonlinear_arith)
        requires
            HIDDEN > 0,
    ;
    assert(m + (k + 1074) * HIDDEN == b) by (nonlinear_arith)
        requires
            b == b / HIDDEN * HIDDEN + b % HIDDEN,
            (b / HIDDEN == 0 && m == b % HIDDEN && k == -1074) || (b / HIDDEN > 0 && m == b % HIDDEN
                + HIDDEN && k == b / HIDDEN - 1075),
    ;
}

/// Factors can change places.
pub proof fn lemma_product_commutes(x: Binary64, y: Binary64)
    ensures
        product(x, y) == product(y, x),
{
    vstd::arithmetic::mul::lemma_mul_is_commutative(x.mantissa() as int, y.mantissa() as int);
}

} // verus!
