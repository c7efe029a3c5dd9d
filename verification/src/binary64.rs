//! Numbers in the IEEE 754 format binary64, computed with integers.
//!
//! A [`Binary64`] is the bit pattern of such a number. The specification
//! functions say what rounding to the nearest number means, ties to even; the
//! executable functions compute it exactly.

use vstd::arithmetic::power2::{lemma_pow2_adds, lemma_pow2_pos, lemma_pow2_unfold, pow2};
use vstd::prelude::*;
use vstd::std_specs::cmp::PartialEqSpecImpl;

verus! {

/// The weight of the lowest exponent bit, and of the hidden mantissa bit.
pub const HIDDEN: u64 = 0x10_0000_0000_0000;

/// The bits of infinity.
pub const INFINITY: u64 = 0x7ff0_0000_0000_0000;

/// The bits of the quiet number that is not a number.
pub const NAN: u64 = 0x7ff8_0000_0000_0000;

/// The sign bit.
pub const SIGN: u64 = 0x8000_0000_0000_0000;

/// The bits of one.
pub const ONE: u64 = 0x3ff0_0000_0000_0000;

/// A number in the format binary64, as its bits.
#[derive(Debug, Clone, Copy)]
pub struct Binary64 {
    pub bits: u64,
}

/// Equality of numbers. A NaN equals nothing, and the two zeros are equal.
impl PartialEq for Binary64 {
    fn eq(&self, other: &Self) -> (r: bool) {
        let a: u64 = self.magnitude_of();
        let b: u64 = other.magnitude_of();
        a <= INFINITY && b <= INFINITY && (self.bits == other.bits || (a == 0 && b == 0))
    }
}

impl PartialEqSpecImpl for Binary64 {
    open spec fn obeys_eq_spec() -> bool {
        true
    }

    open spec fn eq_spec(&self, other: &Self) -> bool {
        same(*self, *other)
    }
}

/// Whether two numbers are equal. A NaN equals nothing, and the two zeros are
/// equal.
pub open spec fn same(x: Binary64, y: Binary64) -> bool {
    !x.is_nan() && !y.is_nan() && (x.bits == y.bits || (x.is_zero() && y.is_zero()))
}

/// Two to the power of `k`, and 1 for a negative `k`.
pub open spec fn p2(k: int) -> nat {
    if k <= 0 {
        1
    } else {
        pow2(k as nat)
    }
}

/// `a / b` rounded to the nearest integer, halves to the even one.
pub open spec fn half_even(a: nat, b: nat) -> nat {
    let q = a / b;
    let r = a % b;
    if 2 * r < b || (2 * r == b && q % 2 == 0) {
        q
    } else {
        q + 1
    }
}

/// Whether `e` is the exponent of the last place that a number near
/// `m / d * 2^k` has in this format: `m / d * 2^(k-e)` has 53 bits before the
/// point, or fewer in the lowest binade.
pub open spec fn in_binade(m: nat, d: nat, k: int, e: int) -> bool {
    let a = m * p2(k - e);
    let b = d * p2(e - k);
    &&& e >= -1074
    &&& a < b * (2 * HIDDEN as nat)
    &&& e == -1074 || b * HIDDEN as nat <= a
}

/// The number `m * 2^e`, where `m` has at most 53 bits and 53 unless `e` is
/// the lowest exponent; infinity where that is too large.
pub open spec fn pack(m: nat, e: int) -> Binary64 {
    let bits = m + (e + 1074) * HIDDEN;
    if bits >= INFINITY {
        Binary64 { bits: INFINITY }
    } else {
        Binary64 { bits: bits as u64 }
    }
}

/// The exponent of the last place for `m / d * 2^k`.
pub open spec fn last_place(m: nat, d: nat, k: int) -> int {
    choose|e: int| in_binade(m, d, k, e)
}

/// The number nearest to `m / d * 2^k`, ties to the even one.
pub open spec fn nearest(m: nat, d: nat, k: int) -> Binary64 {
    let e = last_place(m, d, k);
    pack(half_even(m * p2(k - e), d * p2(e - k)), e)
}

impl Binary64 {
    /// Whether the sign bit is set.
    pub open spec fn negative(self) -> bool {
        self.bits >= SIGN
    }

    /// The bits without the sign.
    pub open spec fn magnitude(self) -> u64 {
        if self.bits >= SIGN {
            (self.bits - SIGN) as u64
        } else {
            self.bits
        }
    }

    pub open spec fn is_nan(self) -> bool {
        self.magnitude() > INFINITY
    }

    pub open spec fn is_infinite(self) -> bool {
        self.magnitude() == INFINITY
    }

    pub open spec fn is_finite(self) -> bool {
        self.magnitude() < INFINITY
    }

    /// The exponent field.
    pub open spec fn field(self) -> int {
        (self.magnitude() / HIDDEN) as int
    }

    /// The integer `m` of the absolute value `m * 2^e`.
    pub open spec fn mantissa(self) -> nat {
        if self.field() == 0 {
            (self.magnitude() % HIDDEN) as nat
        } else {
            (self.magnitude() % HIDDEN + HIDDEN) as nat
        }
    }

    /// The exponent `e` of the absolute value `m * 2^e`.
    pub open spec fn exponent(self) -> int {
        if self.field() == 0 {
            -1074
        } else {
            self.field() - 1075
        }
    }

    /// The same number with the sign `negative`.
    pub open spec fn with_sign(self, negative: bool) -> Binary64 {
        if negative {
            Binary64 { bits: (self.magnitude() + SIGN) as u64 }
        } else {
            Binary64 { bits: self.magnitude() }
        }
    }

    pub open spec fn is_zero(self) -> bool {
        self.magnitude() == 0
    }
}

/// Zero.
pub open spec fn zero() -> Binary64 {
    Binary64 { bits: 0 }
}

/// One.
pub open spec fn one() -> Binary64 {
    Binary64 { bits: ONE }
}

/// Whether the absolute value of `x` is less than that of `y`; both finite.
pub open spec fn smaller(x: Binary64, y: Binary64) -> bool {
    x.mantissa() * p2(x.exponent() - y.exponent()) < y.mantissa() * p2(y.exponent() - x.exponent())
}

/// The order of numbers. Nothing is less or greater than a NaN, and the two
/// zeros are equal.
pub open spec fn lt(x: Binary64, y: Binary64) -> bool {
    if x.is_nan() || y.is_nan() || (x.is_zero() && y.is_zero()) {
        false
    } else if x.negative() != y.negative() {
        x.negative()
    } else if x.negative() {
        below(y, x)
    } else {
        below(x, y)
    }
}

/// The order of absolute values, infinity included.
pub open spec fn below(x: Binary64, y: Binary64) -> bool {
    if x.is_infinite() {
        false
    } else if y.is_infinite() {
        true
    } else {
        smaller(x, y)
    }
}

/// `x` held between zero and one.
pub open spec fn clamp_unit(x: Binary64) -> Binary64 {
    if lt(x, zero()) {
        zero()
    } else if lt(one(), x) {
        one()
    } else {
        x
    }
}

/// The number nearest to the integer `n`.
pub open spec fn of_int(n: nat) -> Binary64 {
    nearest(n, 1, 0)
}

/// The product of two numbers.
pub open spec fn product(x: Binary64, y: Binary64) -> Binary64 {
    let negative = x.negative() != y.negative();
    if x.is_nan() || y.is_nan() || (x.is_infinite() && y.is_zero()) || (x.is_zero()
        && y.is_infinite()) {
        Binary64 { bits: NAN }
    } else if x.is_infinite() || y.is_infinite() {
        Binary64 { bits: INFINITY }.with_sign(negative)
    } else {
        nearest(x.mantissa() * y.mantissa(), 1, x.exponent() + y.exponent()).with_sign(negative)
    }
}

/// The quotient of two numbers, the second of them finite and not zero.
pub open spec fn quotient(x: Binary64, y: Binary64) -> Binary64 {
    let negative = x.negative() != y.negative();
    if x.is_nan() {
        Binary64 { bits: NAN }
    } else if x.is_infinite() {
        Binary64 { bits: INFINITY }.with_sign(negative)
    } else {
        nearest(x.mantissa(), y.mantissa(), x.exponent() - y.exponent()).with_sign(negative)
    }
}

/// `x` cut off to an unsigned 64-bit integer: 0 below zero and for a NaN, the
/// greatest one where `x` is greater.
pub open spec fn truncated(x: Binary64) -> u64 {
    if x.is_nan() || x.negative() {
        0
    } else if x.is_infinite() {
        u64::MAX
    } else {
        let n = x.mantissa() * p2(x.exponent()) / p2(-x.exponent());
        if n > u64::MAX {
            u64::MAX
        } else {
            n as u64
        }
    }
}

/// `x` rounded to an unsigned 64-bit integer, halves up, with the same limits.
pub open spec fn rounded(x: Binary64) -> u64 {
    if x.is_nan() || x.negative() {
        0
    } else if x.is_infinite() {
        u64::MAX
    } else {
        let n = (2 * x.mantissa() * p2(x.exponent()) + p2(-x.exponent())) / (2 * p2(-x.exponent()));
        if n > u64::MAX {
            u64::MAX
        } else {
            n as u64
        }
    }
}

pub proof fn lemma_p2_pos(k: int)
    ensures
        p2(k) >= 1,
{
    if k > 0 {
        lemma_pow2_pos(k as nat);
    }
}

pub proof fn lemma_p2_step(k: int)
    requires
        k >= 0,
    ensures
        p2(k + 1) == 2 * p2(k),
{
    lemma_pow2_unfold((k + 1) as nat);
    if k == 0 {
        vstd::arithmetic::power2::lemma2_to64();
    }
}

pub proof fn lemma_p2_adds(i: int, j: int)
    requires
        i >= 0,
        j >= 0,
    ensures
        p2(i + j) == p2(i) * p2(j),
{
    vstd::arithmetic::power2::lemma2_to64();
    lemma_pow2_adds(i as nat, j as nat);
}

pub proof fn lemma_p2_mono(i: int, j: int)
    requires
        0 <= i <= j,
    ensures
        p2(i) <= p2(j),
{
    lemma_p2_adds(i, j - i);
    lemma_p2_pos(j - i);
    assert(p2(i) <= p2(i) * p2(j - i)) by (nonlinear_arith)
        requires
            p2(j - i) >= 1,
    ;
}

/// Powers of two with a shift between them.
pub proof fn lemma_p2_shift(j: int, s: int)
    requires
        s >= 0,
    ensures
        p2(s) * p2(j - s) * p2(-j) == p2(j) * p2(s - j),
{
    if j >= s {
        lemma_p2_adds(s, j - s);
    } else if j >= 0 {
        lemma_p2_adds(j, s - j);
    } else {
        lemma_p2_adds(s, -j);
    }
    assert(p2(s) * p2(j - s) * p2(-j) == p2(j) * p2(s - j)) by (nonlinear_arith)
        requires
            (j >= s && p2(j) == p2(s) * p2(j - s) && p2(-j) == 1 && p2(s - j) == 1) || (0 <= j < s
                && p2(s) == p2(j) * p2(s - j) && p2(-j) == 1 && p2(j - s) == 1) || (j < 0 && p2(
                s - j,
            ) == p2(s) * p2(-j) && p2(j - s) == 1 && p2(j) == 1),
    ;
}

/// Rounding and comparing depend on a ratio alone.
pub proof fn lemma_ratio(a1: nat, b1: nat, a2: nat, b2: nat, c: nat)
    requires
        b1 > 0,
        b2 > 0,
        a1 * b2 == a2 * b1,
    ensures
        half_even(a1, b1) == half_even(a2, b2),
        (a1 < b1 * c) == (a2 < b2 * c),
{
    let q = a1 / b1;
    let r1 = a1 % b1;
    let r2 = a2 - q * b2;
    assert(a1 == q * b1 + r1 && r1 < b1) by {
        vstd::arithmetic::div_mod::lemma_fundamental_div_mod(a1 as int, b1 as int);
        vstd::arithmetic::mul::lemma_mul_is_commutative(q as int, b1 as int);
        vstd::arithmetic::div_mod::lemma_mod_bound(a1 as int, b1 as int);
    }
    assert(r2 * b1 == r1 * b2) by (nonlinear_arith)
        requires
            r2 == a2 - q * b2,
            a1 == q * b1 + r1,
            a1 * b2 == a2 * b1,
    ;
    assert(0 <= r2 < b2) by (nonlinear_arith)
        requires
            r2 * b1 == r1 * b2,
            0 <= r1 < b1,
            b1 > 0,
            b2 > 0,
    ;
    assert(a2 / b2 == q && a2 % b2 == r2) by {
        vstd::arithmetic::div_mod::lemma_fundamental_div_mod_converse(
            a2 as int,
            b2 as int,
            q as int,
            r2,
        );
    }
    assert((2 * r1 < b1) == (2 * r2 < b2) && (2 * r1 == b1) == (2 * r2 == b2))
        by (nonlinear_arith)
        requires
            r2 * b1 == r1 * b2,
            b1 > 0,
            b2 > 0,
    ;
    assert((a1 < b1 * c) == (a2 < b2 * c)) by (nonlinear_arith)
        requires
            a1 * b2 == a2 * b1,
            b1 > 0,
            b2 > 0,
    ;
}

/// There is one exponent of the last place only.
pub proof fn lemma_binade_unique(m: nat, d: nat, k: int, e1: int, e2: int)
    requires
        d > 0,
        in_binade(m, d, k, e1),
        in_binade(m, d, k, e2),
    ensures
        e1 == e2,
{
    if e1 < e2 {
        lemma_binade_order(m, d, k, e1, e2);
    }
    if e2 < e1 {
        lemma_binade_order(m, d, k, e2, e1);
    }
}

proof fn lemma_binade_order(m: nat, d: nat, k: int, e1: int, e2: int)
    requires
        d > 0,
        in_binade(m, d, k, e1),
        e1 < e2,
    ensures
        !in_binade(m, d, k, e2),
{
    let s = e2 - e1;
    let j = k - e1;
    lemma_p2_shift(j, s);
    lemma_p2_pos(j);
    lemma_p2_pos(-j);
    lemma_p2_pos(j - s);
    lemma_p2_pos(s - j);
    lemma_p2_step(s - 1);
    lemma_p2_pos(s - 1);
    let x = p2(j);
    let y = p2(-j);
    let u = p2(j - s);
    let v = p2(s - j);
    let t = p2(s);
    let h = HIDDEN as nat;
    assert(k - e2 == j - s);
    assert(m * x < d * y * (2 * h));
    assert(d * v * h > m * u) by (nonlinear_arith)
        requires
            m * x < d * y * (2 * h),
            t * u * y == x * v,
            t >= 2,
            x >= 1,
            y >= 1,
            u >= 1,
            v >= 1,
            d >= 1,
            h >= 1,
    {
        assert(m * x * v < d * y * (2 * h) * v);
        assert(d * y * (2 * h) * v == (d * v * h) * (y * 2));
        assert((d * v * h) * (y * 2) <= (d * v * h) * (y * t));
        assert((m * u) * (y * t) == m * (t * u * y));
        assert(m * (x * v) == m * x * v);
        assert((m * u) * (y * t) < (d * v * h) * (y * t));
    }
}

pub proof fn lemma_nearest_at(m: nat, d: nat, k: int, e: int)
    requires
        d > 0,
        in_binade(m, d, k, e),
    ensures
        nearest(m, d, k) == pack(half_even(m * p2(k - e), d * p2(e - k)), e),
{
    lemma_binade_unique(m, d, k, e, last_place(m, d, k));
}

/// There is an exponent of the last place.
pub proof fn lemma_binade_exists(m: nat, d: nat, k: int) -> (e: int)
    requires
        d > 0,
    ensures
        in_binade(m, d, k, e),
        nearest(m, d, k) == pack(half_even(m * p2(k - e), d * p2(e - k)), e),
{
    let e = if m * p2(k + 1074) < d * p2(-1074 - k) * (2 * HIDDEN as nat) {
        -1074
    } else {
        lemma_binade_search(m, d, k, -1074)
    };
    lemma_nearest_at(m, d, k, e);
    e
}

proof fn lemma_binade_search(m: nat, d: nat, k: int, from: int) -> (e: int)
    requires
        d > 0,
        from >= -1074,
        m * p2(k - from) >= d * p2(from - k) * (2 * HIDDEN as nat),
    ensures
        in_binade(m, d, k, e),
    decreases (if from < k {
        m + k - from
    } else {
        m - (from - k)
    }),
{
    let next = from + 1;
    let a = m * p2(k - from);
    let b = d * p2(from - k);
    let c = m * p2(k - next);
    let f = d * p2(next - k);
    let h = HIDDEN as nat;
    if from < k {
        lemma_p2_step(k - next);
        assert(f == b);
        assert(a == 2 * c) by (nonlinear_arith)
            requires
                a == m * p2(k - from),
                c == m * p2(k - next),
                p2(k - from) == 2 * p2(k - next),
        ;
        assert(f * h <= c) by (nonlinear_arith)
            requires
                f == b,
                a == 2 * c,
                a >= b * (2 * h),
        ;
    } else {
        lemma_p2_step(from - k);
        lemma_p2_above(from - k);
        assert(a == m && c == m);
        assert(f == 2 * b) by (nonlinear_arith)
            requires
                b == d * p2(from - k),
                f == d * p2(next - k),
                p2(next - k) == 2 * p2(from - k),
        ;
        assert(f * h <= c) by (nonlinear_arith)
            requires
                f == 2 * b,
                c == a,
                a >= b * (2 * h),
        ;
        assert(m > from - k) by (nonlinear_arith)
            requires
                m >= b * (2 * h),
                b == d * p2(from - k),
                d >= 1,
                h >= 1,
                p2(from - k) > from - k,
        ;
    }
    if c < f * (2 * h) {
        next
    } else {
        lemma_binade_search(m, d, k, next)
    }
}

proof fn lemma_p2_above(i: int)
    requires
        i >= 0,
    ensures
        p2(i) > i,
    decreases i,
{
    if i > 0 {
        lemma_p2_above(i - 1);
        lemma_p2_step(i - 1);
    }
}

/// A power of two may move between the integer and the exponent.
pub proof fn lemma_binade_shift(m: nat, d: nat, k: int, s: int, e: int)
    requires
        d > 0,
        s >= 0,
        in_binade(m * p2(s), d, k - s, e),
    ensures
        in_binade(m, d, k, e),
        nearest(m, d, k) == nearest(m * p2(s), d, k - s),
{
    let n = m * p2(s);
    let j = k - e;
    let a1 = n * p2(j - s);
    let b1 = d * p2(s - j);
    let a2 = m * p2(j);
    let b2 = d * p2(-j);
    assert(k - s - e == j - s);
    lemma_p2_shift(j, s);
    lemma_p2_pos(-j);
    lemma_p2_pos(s - j);
    let x = p2(j);
    let y = p2(-j);
    let u = p2(j - s);
    let v = p2(s - j);
    let t = p2(s);
    assert(a1 * b2 == a2 * b1) by (nonlinear_arith)
        requires
            a1 == (m * t) * u,
            b2 == d * y,
            a2 == m * x,
            b1 == d * v,
            t * u * y == x * v,
    {
        assert((m * t) * u * (d * y) == m * d * (t * u * y));
        assert((m * x) * (d * v) == m * d * (x * v));
    }
    assert(b1 > 0) by (nonlinear_arith)
        requires
            b1 == d * v,
            d > 0,
            v >= 1,
    ;
    assert(b2 > 0) by (nonlinear_arith)
        requires
            b2 == d * y,
            d > 0,
            y >= 1,
    ;
    lemma_ratio(a1, b1, a2, b2, 2 * HIDDEN as nat);
    lemma_ratio(a1, b1, a2, b2, HIDDEN as nat);
    lemma_nearest_at(n, d, k - s, e);
    lemma_nearest_at(m, d, k, e);
}

/// Rounds `m / d * 2^k`, of which `x` is what stands before the point after
/// `s` more bits and `sticky` says whether anything stands behind it.
fn round(
    x: u128,
    sticky: bool,
    j: i32,
    Ghost(m): Ghost<nat>,
    Ghost(d): Ghost<nat>,
    Ghost(k): Ghost<int>,
    Ghost(s): Ghost<int>,
) -> (r: Binary64)
    requires
        d > 0,
        s >= 0,
        j == k - s,
        x == (m * p2(s)) / d,
        sticky == ((m * p2(s)) % d != 0),
        sticky ==> x >= 0x20_0000_0000_0000,
        x < 0x1_0000_0000_0000_0000_0000_0000_0000,
        -4000 <= j <= 4000,
    ensures
        r == nearest(m, d, k),
{
    let ghost n: nat = m * p2(s);
    let ghost r0: nat = n % d;
    proof {
        vstd::arithmetic::div_mod::lemma_fundamental_div_mod(n as int, d as int);
        vstd::arithmetic::div_mod::lemma_mod_bound(n as int, d as int);
        vstd::arithmetic::mul::lemma_mul_is_commutative(x as int, d as int);
    }
    let mut q: u128 = x;
    let mut div: u128 = 1;
    let mut e: i32 = j;
    while q >= 0x20_0000_0000_0000 || e < -1074
        invariant
            x < 0x1_0000_0000_0000_0000_0000_0000_0000,
            -4000 <= j <= 4000,
            j <= e <= j + 113,
            div == p2(e - j),
            div >= 1,
            q == x / div,
            div < 0x4_0000_0000_0000_0000_0000_0000_0000,
            e > j ==> q >= 0x10_0000_0000_0000 || e <= -1074,
            e - j == 113 ==> q == 0,
            n == x * d + r0,
            r0 < d,
            n == m * p2(s),
            d > 0,
            s >= 0,
            j == k - s,
        decreases j + 114 - e,
    {
        if e - j >= 113 {
            // Everything is below half of the lowest number.
            proof {
                lemma_far_below(m, d, k, s, x as nat, r0, e as int);
            }
            return Binary64 { bits: 0 };
        }
        proof {
            lemma_p2_step(e - j);
            lemma_halves(x as nat, div as nat);
        }
        q = q / 2;
        div = div * 2;
        e = e + 1;
        proof {
            lemma_pow113();
            lemma_p2_mono(e - j, 113);
            if e - j == 113 {
                vstd::arithmetic::div_mod::lemma_basic_div(x as int, div as int);
            }
        }
    }
    let up: bool;
    if e > j {
        let rem: u128 = x % div;
        let half: u128 = div / 2;
        up = rem > half || (rem == half && (sticky || q % 2 == 1));
        proof {
            lemma_p2_step(e - j - 1);
            lemma_round_drop(n, d, x as nat, r0, div as nat, q as nat, rem as nat, half as nat);
            assert(p2(j - e) == 1);
            assert(k - s - e == j - e);
        }
    } else {
        while q < 0x10_0000_0000_0000 && e > -1074
            invariant
                -1074 <= e <= j,
                q < 0x20_0000_0000_0000,
                q == x * p2(j - e),
                e < j ==> q < 0x20_0000_0000_0000,
            decreases e + 1074,
        {
            proof {
                lemma_p2_step(j - e);
                assert(x * (2 * p2(j - e)) == 2 * (x * p2(j - e))) by (nonlinear_arith);
            }
            q = q * 2;
            e = e - 1;
        }
        up = false;
        proof {
            lemma_round_exact(n, d, x as nat, p2(j - e), q as nat);
            assert(p2(e - j) == 1);
        }
    }
    let ghost a = n * p2(k - s - e);
    let ghost b = d * p2(e - (k - s));
    proof {
        assert(in_binade(n, d, k - s, e as int));
        lemma_nearest_at(n, d, k - s, e as int);
        lemma_binade_shift(m, d, k, s, e as int);
    }
    let mant: u128 = if up {
        q + 1
    } else {
        q
    };
    assert(mant == half_even(a, b));
    let bits: u128 = mant + (e + 1074) as u128 * HIDDEN as u128;
    if bits >= INFINITY as u128 {
        Binary64 { bits: INFINITY }
    } else {
        Binary64 { bits: bits as u64 }
    }
}

proof fn lemma_halves(x: nat, div: nat)
    requires
        div >= 1,
    ensures
        (x / div) / 2 == x / (2 * div),
{
    vstd::arithmetic::div_mod::lemma_div_denominator(x as int, div as int, 2);
    vstd::arithmetic::mul::lemma_mul_is_commutative(div as int, 2);
}

/// The value of a power that bounds every intermediate integer.
proof fn lemma_pow113()
    ensures
        p2(113) == 0x2_0000_0000_0000_0000_0000_0000_0000,
{
    vstd::arithmetic::power2::lemma2_to64();
    vstd::arithmetic::power2::lemma2_to64_rest();
    lemma_p2_adds(56, 57);
    assert(0x100_0000_0000_0000 * 0x200_0000_0000_0000
        == 0x2_0000_0000_0000_0000_0000_0000_0000int) by (nonlinear_arith);
}

/// Rounding after some low bits are dropped.
proof fn lemma_round_drop(
    n: nat,
    d: nat,
    x: nat,
    r0: nat,
    div: nat,
    q: nat,
    rem: nat,
    half: nat,
)
    requires
        d > 0,
        n == x * d + r0,
        r0 < d,
        div >= 2,
        div == 2 * half,
        q == x / div,
        rem == x % div,
    ensures
        n * 1 < (d * div) * (2 * HIDDEN as nat) <==> q < 2 * HIDDEN,
        (d * div) * HIDDEN as nat <= n * 1 <==> HIDDEN <= q,
        half_even(n * 1, d * div) == if rem > half || (rem == half && (r0 != 0 || q % 2 == 1)) {
            q + 1
        } else {
            q
        },
{
    let b = d * div;
    let big = rem * d + r0;
    vstd::arithmetic::div_mod::lemma_fundamental_div_mod(x as int, div as int);
    vstd::arithmetic::div_mod::lemma_mod_bound(x as int, div as int);
    assert(x == div * q + rem);
    assert(n == q * b + big && big < b && b > 0) by (nonlinear_arith)
        requires
            n == x * d + r0,
            x == div * q + rem,
            b == d * div,
            big == rem * d + r0,
            rem < div,
            r0 < d,
            d > 0,
            div >= 2,
    ;
    vstd::arithmetic::div_mod::lemma_fundamental_div_mod_converse(
        n as int,
        b as int,
        q as int,
        big as int,
    );
    let h = HIDDEN as nat;
    assert((n < b * (2 * h)) == (q < 2 * h) && (b * h <= n) == (h <= q)) by (nonlinear_arith)
        requires
            n == q * b + big,
            big < b,
    ;
    assert(rem > half ==> 2 * big > b) by (nonlinear_arith)
        requires
            big == rem * d + r0,
            b == d * div,
            div == 2 * half,
            d > 0,
    ;
    assert(rem < half ==> 2 * big < b) by (nonlinear_arith)
        requires
            big == rem * d + r0,
            b == d * div,
            div == 2 * half,
            r0 < d,
    ;
    assert(rem == half ==> 2 * big == b + 2 * r0) by (nonlinear_arith)
        requires
            big == rem * d + r0,
            b == d * div,
            div == 2 * half,
    ;
}

/// Rounding where no bits are dropped.
proof fn lemma_round_exact(n: nat, d: nat, x: nat, t: nat, q: nat)
    requires
        d > 0,
        n == x * d,
        q == x * t,
    ensures
        n * t < (d * 1) * (2 * HIDDEN as nat) <==> q < 2 * HIDDEN,
        (d * 1) * HIDDEN as nat <= n * t <==> HIDDEN <= q,
        half_even(n * t, d * 1) == q,
{
    let h = HIDDEN as nat;
    assert(n * t == q * d) by (nonlinear_arith)
        requires
            n == x * d,
            q == x * t,
    ;
    vstd::arithmetic::div_mod::lemma_fundamental_div_mod_converse(
        (n * t) as int,
        d as int,
        q as int,
        0,
    );
    assert((q * d < d * (2 * h)) == (q < 2 * h) && (d * h <= q * d) == (h <= q))
        by (nonlinear_arith)
        requires
            d > 0,
    ;
}

/// A number far below the lowest one rounds to zero.
proof fn lemma_far_below(m: nat, d: nat, k: int, s: int, x: nat, r0: nat, e: int)
    requires
        d > 0,
        s >= 0,
        m * p2(s) == x * d + r0,
        r0 < d,
        x < 0x1_0000_0000_0000_0000_0000_0000_0000,
        e - (k - s) >= 113,
        e <= -1074,
    ensures
        nearest(m, d, k) == (Binary64 { bits: 0 }),
{
    let n = m * p2(s);
    let f: int = -1074;
    let w = p2(f - (k - s));
    lemma_pow113();
    lemma_p2_adds(113, f - (k - s) - 113);
    lemma_p2_pos(f - (k - s) - 113);
    let c: nat = 0x2_0000_0000_0000_0000_0000_0000_0000;
    let p = p2(f - (k - s) - 113);
    assert(w >= c) by (nonlinear_arith)
        requires
            w == c * p,
            p >= 1,
    ;
    let b = d * w;
    let h = HIDDEN as nat;
    assert(2 * n < b && b > 0) by (nonlinear_arith)
        requires
            n == x * d + r0,
            r0 < d,
            2 * x + 2 <= c,
            b == d * w,
            w >= c,
            d > 0,
    ;
    assert(p2(k - s - f) == 1);
    assert(n * 1 < b * (2 * h)) by (nonlinear_arith)
        requires
            2 * n < b,
            h >= 1,
    ;
    assert(in_binade(n, d, k - s, f));
    lemma_nearest_at(n, d, k - s, f);
    lemma_binade_shift(m, d, k, s, f);
    vstd::arithmetic::div_mod::lemma_basic_div(n as int, b as int);
    vstd::arithmetic::div_mod::lemma_small_mod(n, b);
}

/// The mantissa of a number that is not a NaN has at most 53 bits.
pub proof fn lemma_mantissa(x: Binary64)
    requires
        x.is_finite(),
    ensures
        x.mantissa() < 2 * HIDDEN,
        -1074 <= x.exponent() <= 971,
        x.exponent() > -1074 ==> x.mantissa() >= HIDDEN,
        x.is_zero() <==> x.mantissa() == 0,
{
    let m = x.magnitude();
    assert(m == m / HIDDEN * HIDDEN + m % HIDDEN) by (nonlinear_arith)
        requires
            HIDDEN > 0,
    ;
    assert(m / HIDDEN <= 2046) by (nonlinear_arith)
        requires
            m < 0x7ff0_0000_0000_0000,
            HIDDEN == 0x10_0000_0000_0000,
    ;
}

impl Binary64 {
    /// Whether the sign bit is set.
    pub fn negative_of(self) -> (b: bool)
        ensures
            b == self.negative(),
    {
        self.bits >= SIGN
    }

    /// The bits without the sign.
    pub fn magnitude_of(self) -> (m: u64)
        ensures
            m == self.magnitude(),
    {
        if self.bits >= SIGN {
            self.bits - SIGN
        } else {
            self.bits
        }
    }

    /// The mantissa and the exponent of a finite number.
    pub fn unpack(self) -> (r: (u64, i32))
        requires
            self.is_finite(),
        ensures
            r.0 == self.mantissa(),
            r.1 == self.exponent(),
            r.0 < 0x20_0000_0000_0000,
            -1074 <= r.1 <= 971,
    {
        proof {
            lemma_mantissa(self);
        }
        let m: u64 = self.magnitude_of();
        let field: u64 = m / HIDDEN;
        if field == 0 {
            (m % HIDDEN, -1074)
        } else {
            (m % HIDDEN + HIDDEN, field as i32 - 1075)
        }
    }

    /// Sets the sign.
    pub fn signed(self, negative: bool) -> (r: Binary64)
        ensures
            r == self.with_sign(negative),
    {
        if negative {
            Binary64 { bits: self.magnitude_of() + SIGN }
        } else {
            Binary64 { bits: self.magnitude_of() }
        }
    }

    /// The number nearest to an integer.
    pub fn from_u64(n: u64) -> (r: Binary64)
        ensures
            r == of_int(n as nat),
    {
        proof {
            assert(n as nat * p2(0) == n) by (nonlinear_arith)
                requires
                    p2(0) == 1,
            ;
            assert(n as nat / 1 == n && n as nat % 1 == 0);
        }
        round(n as u128, false, 0, Ghost(n as nat), Ghost(1), Ghost(0), Ghost(0))
    }

    /// The product of two numbers.
    pub fn times(self, other: Binary64) -> (r: Binary64)
        ensures
            r == product(self, other),
    {
        let a: u64 = self.magnitude_of();
        let b: u64 = other.magnitude_of();
        let negative: bool = self.negative_of() != other.negative_of();
        if a > INFINITY || b > INFINITY || (a == INFINITY && b == 0) || (a == 0 && b == INFINITY) {
            return Binary64 { bits: NAN };
        }
        if a == INFINITY || b == INFINITY {
            return Binary64 { bits: INFINITY }.signed(negative);
        }
        let (m, e) = self.unpack();
        let (n, f) = other.unpack();
        assert(m * n < 0x1_0000_0000_0000_0000_0000_0000_0000) by (nonlinear_arith)
            requires
                m < 0x20_0000_0000_0000,
                n < 0x20_0000_0000_0000,
        ;
        let x: u128 = m as u128 * n as u128;
        let ghost w: nat = self.mantissa() * other.mantissa();
        proof {
            assert(w * p2(0) == w) by (nonlinear_arith)
                requires
                    p2(0) == 1,
            ;
            assert(w / 1 == w && w % 1 == 0);
        }
        let r = round(
            x,
            false,
            e + f,
            Ghost(w),
            Ghost(1),
            Ghost(self.exponent() + other.exponent()),
            Ghost(0),
        );
        r.signed(negative)
    }

    /// The quotient of two numbers.
    pub fn over(self, other: Binary64) -> (r: Binary64)
        requires
            other.is_finite(),
            !other.is_zero(),
        ensures
            r == quotient(self, other),
    {
        let a: u64 = self.magnitude_of();
        let negative: bool = self.negative_of() != other.negative_of();
        if a > INFINITY {
            return Binary64 { bits: NAN };
        }
        if a == INFINITY {
            return Binary64 { bits: INFINITY }.signed(negative);
        }
        let (m, e) = self.unpack();
        let (n, f) = other.unpack();
        proof {
            lemma_mantissa(other);
        }
        let mut x: u128 = m as u128;
        let mut s: i32 = 0;
        assert(x * p2(0) == x) by (nonlinear_arith)
            requires
                p2(0) == 1,
        ;
        while x < 0x800_0000_0000_0000_0000_0000_0000 && s < 112
            invariant
                0 <= s <= 112,
                x == m * p2(s as int),
                x < 0x1000_0000_0000_0000_0000_0000_0000,
                m > 0 ==> x >= p2(s as int),
            decreases 112 - s,
        {
            proof {
                lemma_p2_step(s as int);
                assert(m * (2 * p2(s as int)) == 2 * (m * p2(s as int))) by (nonlinear_arith);
            }
            x = x * 2;
            s = s + 1;
        }
        let q: u128 = x / n as u128;
        let sticky: bool = x % n as u128 != 0;
        proof {
            lemma_p2_112();
            if m > 0 {
                assert(x >= 0x800_0000_0000_0000_0000_0000_0000);
                assert(q >= 0x20_0000_0000_0000) by (nonlinear_arith)
                    requires
                        q == x / (n as u128),
                        x >= 0x800_0000_0000_0000_0000_0000_0000,
                        0 < n < 0x20_0000_0000_0000,
                ;
            } else {
                assert(x == 0) by (nonlinear_arith)
                    requires
                        x == m * p2(s as int),
                        m == 0,
                ;
            }
            assert(q <= x) by (nonlinear_arith)
                requires
                    q == x / (n as u128),
                    n > 0,
            ;
        }
        let r = round(
            q,
            sticky,
            e - f - s,
            Ghost(m as nat),
            Ghost(n as nat),
            Ghost(self.exponent() - other.exponent()),
            Ghost(s as int),
        );
        r.signed(negative)
    }

    /// Whether the number is less than another one.
    pub fn less(self, other: Binary64) -> (b: bool)
        ensures
            b == lt(self, other),
    {
        let a: u64 = self.magnitude_of();
        let b: u64 = other.magnitude_of();
        proof {
            if a < INFINITY && b < INFINITY {
                lemma_bits_order(self, other);
                lemma_bits_order(other, self);
            }
        }
        if a > INFINITY || b > INFINITY || (a == 0 && b == 0) {
            false
        } else if self.negative_of() != other.negative_of() {
            self.negative_of()
        } else if self.negative_of() {
            b < a
        } else {
            a < b
        }
    }

    /// Holds the number between zero and one.
    pub fn clamped(self) -> (r: Binary64)
        ensures
            r == clamp_unit(self),
    {
        if self.less(Binary64 { bits: 0 }) {
            Binary64 { bits: 0 }
        } else if (Binary64 { bits: ONE }).less(self) {
            Binary64 { bits: ONE }
        } else {
            self
        }
    }
}

/// `n` halved `i` times.
proof fn lemma_halved(n: nat, i: int)
    requires
        i >= 0,
    ensures
        (n / p2(i)) / 2 == n / p2(i + 1),
{
    lemma_p2_step(i);
    lemma_p2_pos(i);
    lemma_halves(n, p2(i));
}

impl Binary64 {
    /// The absolute value of a finite number times a power of two, where the
    /// exponent is not negative; at most `u64::MAX`.
    fn scaled_up(mant: u64, e: i32) -> (r: u64)
        requires
            0 <= e <= 971,
        ensures
            mant * p2(e as int) > u64::MAX ==> r == u64::MAX,
            mant * p2(e as int) <= u64::MAX ==> r == mant * p2(e as int),
    {
        let mut v: u64 = mant;
        let mut i: i32 = 0;
        assert(mant * p2(0) == mant) by (nonlinear_arith)
            requires
                p2(0) == 1,
        ;
        while i < e
            invariant
                0 <= i <= e,
                v == mant * p2(i as int),
            decreases e - i,
        {
            proof {
                lemma_p2_step(i as int);
                assert(mant * (2 * p2(i as int)) == 2 * (mant * p2(i as int)))
                    by (nonlinear_arith);
                lemma_p2_mono(i + 1, e as int);
                assert(mant * p2(i + 1) <= mant * p2(e as int)) by (nonlinear_arith)
                    requires
                        p2(i + 1) <= p2(e as int),
                ;
            }
            if v > u64::MAX / 2 {
                return u64::MAX;
            }
            v = v * 2;
            i += 1;
        }
        v
    }

    /// `mant` divided by a power of two, without the remainder.
    fn scaled_down(mant: u64, n: i32) -> (r: u64)
        requires
            0 <= n,
        ensures
            r == mant as nat / p2(n as int),
    {
        let mut v: u64 = mant;
        let mut i: i32 = 0;
        assert(mant as nat / 1 == mant);
        while i < n
            invariant
                0 <= i <= n,
                v == mant as nat / p2(i as int),
            decreases n - i,
        {
            proof {
                lemma_halved(mant as nat, i as int);
            }
            v = v / 2;
            i += 1;
        }
        v
    }

    /// Cuts the number off to an unsigned integer.
    pub fn truncate(self) -> (r: u64)
        ensures
            r == truncated(self),
    {
        let a: u64 = self.magnitude_of();
        if a > INFINITY || self.negative_of() {
            0
        } else if a == INFINITY {
            u64::MAX
        } else {
            let (m, e) = self.unpack();
            if e >= 0 {
                assert(p2(-e) == 1);
                assert((m * p2(e as int)) as nat / 1 == m * p2(e as int));
                Binary64::scaled_up(m, e)
            } else {
                proof {
                    assert(m as nat * p2(e as int) == m) by (nonlinear_arith)
                        requires
                            p2(e as int) == 1,
                    ;
                    lemma_p2_pos(-e);
                    vstd::arithmetic::div_mod::lemma_div_is_ordered_by_denominator(
                        m as int,
                        1,
                        p2(-e) as int,
                    );
                }
                Binary64::scaled_down(m, -e)
            }
        }
    }

    /// Rounds the number to an unsigned integer, halves up.
    pub fn round_off(self) -> (r: u64)
        ensures
            r == rounded(self),
    {
        let a: u64 = self.magnitude_of();
        if a > INFINITY || self.negative_of() {
            0
        } else if a == INFINITY {
            u64::MAX
        } else {
            let (m, e) = self.unpack();
            if e >= 0 {
                proof {
                    assert(p2(-e) == 1);
                    let w: nat = (m * p2(e as int)) as nat;
                    assert(2 * m as nat * p2(e as int) == 2 * w) by (nonlinear_arith)
                        requires
                            w == m * p2(e as int),
                    ;
                    assert((2 * w + 1) / 2 == w);
                }
                Binary64::scaled_up(m, e)
            } else {
                let v: u64 = Binary64::scaled_down(m, -e - 1);
                proof {
                    let h = p2(-e - 1);
                    lemma_p2_step(-e - 1);
                    lemma_p2_pos(-e - 1);
                    assert(2 * m as nat * p2(e as int) == 2 * m) by (nonlinear_arith)
                        requires
                            p2(e as int) == 1,
                    ;
                    lemma_round_half_up(m as nat, h);
                    assert(v <= m) by (nonlinear_arith)
                        requires
                            v == m as nat / h,
                            h >= 1,
                    ;
                }
                (v + 1) / 2
            }
        }
    }
}

proof fn lemma_round_half_up(m: nat, h: nat)
    requires
        h >= 1,
    ensures
        (2 * m + 2 * h) / (2 * (2 * h)) == (m / h + 1) / 2,
{
    let q = m / h;
    let r = m % h;
    vstd::arithmetic::div_mod::lemma_fundamental_div_mod(m as int, h as int);
    vstd::arithmetic::div_mod::lemma_mod_bound(m as int, h as int);
    let t = (q + 1) / 2;
    let u = (q + 1) % 2;
    let rest = (u * h + r) * 2;
    assert(2 * m + 2 * h == t * (4 * h) + rest && 0 <= rest < 4 * h) by (nonlinear_arith)
        requires
            m == h * q + r,
            0 <= r < h,
            q + 1 == 2 * t + u,
            0 <= u <= 1,
            rest == (u * h + r) * 2,
    ;
    vstd::arithmetic::div_mod::lemma_fundamental_div_mod_converse(
        (2 * m + 2 * h) as int,
        (4 * h) as int,
        t as int,
        rest as int,
    );
}

proof fn lemma_p2_112()
    ensures
        p2(112) == 0x1_0000_0000_0000_0000_0000_0000_0000,
{
    lemma_pow113();
    lemma_p2_step(112);
}

/// Bits are ordered as the absolute values that they stand for.
pub proof fn lemma_bits_order(x: Binary64, y: Binary64)
    requires
        x.is_finite(),
        y.is_finite(),
    ensures
        smaller(x, y) <==> x.magnitude() < y.magnitude(),
{
    lemma_mantissa(x);
    lemma_mantissa(y);
    if x.exponent() < y.exponent() {
        lemma_exponent_order(x, y);
    } else if y.exponent() < x.exponent() {
        lemma_exponent_order(y, x);
    } else {
        let m = x.mantissa();
        let n = y.mantissa();
        assert(p2(0) == 1);
        assert(m * 1 == m && n * 1 == n);
        let a = x.magnitude();
        let b = y.magnitude();
        assert(a == a / HIDDEN * HIDDEN + a % HIDDEN) by (nonlinear_arith)
            requires
                HIDDEN > 0,
        ;
        assert(b == b / HIDDEN * HIDDEN + b % HIDDEN) by (nonlinear_arith)
            requires
                HIDDEN > 0,
        ;
    }
}

proof fn lemma_exponent_order(x: Binary64, y: Binary64)
    requires
        x.is_finite(),
        y.is_finite(),
        x.exponent() < y.exponent(),
    ensures
        smaller(x, y),
        !smaller(y, x),
        x.magnitude() < y.magnitude(),
{
    lemma_mantissa(x);
    lemma_mantissa(y);
    let k = y.exponent() - x.exponent();
    lemma_p2_step(k - 1);
    lemma_p2_pos(k - 1);
    let m = x.mantissa();
    let n = y.mantissa();
    let t = p2(k);
    assert(p2(-k) == 1);
    let h = HIDDEN as nat;
    assert(m * 1 < n * t) by (nonlinear_arith)
        requires
            m < 2 * h,
            n >= h,
            t >= 2,
    ;
    let a = x.magnitude();
    let b = y.magnitude();
    assert(a == a / HIDDEN * HIDDEN + a % HIDDEN) by (nonlinear_arith)
        requires
            HIDDEN > 0,
    ;
    assert(b == b / HIDDEN * HIDDEN + b % HIDDEN) by (nonlinear_arith)
        requires
            HIDDEN > 0,
    ;
    assert(a < b) by (nonlinear_arith)
        requires
            a == a / HIDDEN * HIDDEN + a % HIDDEN,
            b == b / HIDDEN * HIDDEN + b % HIDDEN,
            a / HIDDEN < b / HIDDEN,
            a % HIDDEN < HIDDEN,
            b % HIDDEN >= 0,
    ;
}

/// What [`pack`] takes together comes apart again.
pub proof fn lemma_pack(m: nat, e: int)
    requires
        HIDDEN <= m <= 2 * HIDDEN,
        -1074 <= e <= 970,
    ensures
        pack(m, e).is_finite(),
        !pack(m, e).negative(),
        !pack(m, e).is_zero(),
        m < 2 * HIDDEN ==> pack(m, e).mantissa() == m && pack(m, e).exponent() == e,
        m == 2 * HIDDEN ==> pack(m, e).mantissa() == HIDDEN && pack(m, e).exponent() == e + 1,
{
    let bits = m + (e + 1074) * HIDDEN;
    assert(bits < 2046 * HIDDEN + HIDDEN) by (nonlinear_arith)
        requires
            bits == m + (e + 1074) * HIDDEN,
            m <= 2 * HIDDEN,
            e <= 970,
            HIDDEN > 0,
    ;
    if m < 2 * HIDDEN {
        assert(bits == (e + 1075) * HIDDEN + (m - HIDDEN)) by (nonlinear_arith)
            requires
                bits == m + (e + 1074) * HIDDEN,
        ;
        vstd::arithmetic::div_mod::lemma_fundamental_div_mod_converse(
            bits,
            HIDDEN as int,
            e + 1075,
            m - HIDDEN,
        );
    } else {
        assert(bits == (e + 1076) * HIDDEN + 0) by (nonlinear_arith)
            requires
                bits == m + (e + 1074) * HIDDEN,
                m == 2 * HIDDEN,
        ;
        vstd::arithmetic::div_mod::lemma_fundamental_div_mod_converse(
            bits,
            HIDDEN as int,
            e + 1076,
            0,
        );
    }
    assert(bits >= HIDDEN) by (nonlinear_arith)
        requires
            bits == m + (e + 1074) * HIDDEN,
            m >= HIDDEN,
            e >= -1074,
            HIDDEN > 0,
    ;
}

/// A number next to an integer from one to the greatest 64-bit integer.
pub proof fn lemma_of_int(n: nat)
    requires
        0 < n <= u64::MAX,
    ensures
        of_int(n).is_finite(),
        !of_int(n).negative(),
        !of_int(n).is_zero(),
        of_int(n).mantissa() >= HIDDEN,
        -52 <= of_int(n).exponent() <= 12,
        n < 2 * HIDDEN ==> of_int(n).exponent() <= 0 && of_int(n).mantissa() == n * p2(
            -of_int(n).exponent(),
        ),
{
    let e = lemma_binade_exists(n, 1, 0);
    let a = n * p2(-e);
    let b = 1 * p2(e);
    let h = HIDDEN as nat;
    vstd::arithmetic::power2::lemma2_to64();
    vstd::arithmetic::power2::lemma2_to64_rest();
    lemma_p2_pos(e);
    lemma_p2_pos(-e);
    if e < -52 {
        lemma_p2_mono(53, -e);
        assert(a >= 2 * h) by (nonlinear_arith)
            requires
                a == n * p2(-e),
                n >= 1,
                p2(-e) >= 2 * h,
        ;
        assert(b == 1);
    }
    assert(b * h <= a);
    if e > 11 {
        lemma_p2_mono(12, e);
        assert(a == n);
        assert(b * h >= 0x1000 * h) by (nonlinear_arith)
            requires
                b >= 0x1000,
        ;
    }
    lemma_half_even_bounds(a, b, h, 2 * h);
    lemma_pack(half_even(a, b), e);
    if n < 2 * h {
        if e > 0 {
            lemma_p2_mono(1, e);
            assert(a == n);
            assert(b * h >= 2 * h) by (nonlinear_arith)
                requires
                    b >= 2,
            ;
        }
        assert(b == 1);
        assert(a / 1 == a && a % 1 == 0);
    }
}

/// Rounding keeps integer bounds.
pub proof fn lemma_half_even_bounds(a: nat, b: nat, low: nat, high: nat)
    requires
        b > 0,
        b * low <= a,
        a <= b * high,
    ensures
        low <= half_even(a, b) <= high,
{
    let q = a / b;
    let r = a % b;
    vstd::arithmetic::div_mod::lemma_fundamental_div_mod(a as int, b as int);
    vstd::arithmetic::div_mod::lemma_mod_bound(a as int, b as int);
    assert(low <= q) by (nonlinear_arith)
        requires
            b * low <= a,
            a == b * q + r,
            r < b,
            b > 0,
    ;
    assert(q < high || (q == high && r == 0)) by (nonlinear_arith)
        requires
            a <= b * high,
            a == b * q + r,
            0 <= r < b,
            b > 0,
    ;
}

/// The quotient of two integers is a number.
pub proof fn lemma_quotient_of_ints(n: nat, d: nat)
    requires
        n <= u64::MAX,
        0 < d <= u64::MAX,
    ensures
        quotient(of_int(n), of_int(d)).is_finite(),
        !quotient(of_int(n), of_int(d)).negative(),
{
    lemma_of_int(d);
    let y = of_int(d);
    lemma_mantissa(y);
    if n == 0 {
        lemma_of_zero();
        let x = of_int(0);
        lemma_nearest_zero(y.mantissa(), x.exponent() - y.exponent());
    } else {
        lemma_of_int(n);
        let x = of_int(n);
        lemma_mantissa(x);
        let k = x.exponent() - y.exponent();
        let m = x.mantissa();
        let q = y.mantissa();
        let e = lemma_binade_exists(m, q, k);
        let a = m * p2(k - e);
        let b = q * p2(e - k);
        let h = HIDDEN as nat;
        vstd::arithmetic::power2::lemma2_to64();
        vstd::arithmetic::power2::lemma2_to64_rest();
        lemma_p2_pos(e - k);
        lemma_p2_pos(k - e);
        if e > 13 {
            lemma_p2_mono(if k - e < 0 {
                0
            } else {
                k - e
            }, 51);
            assert(m * p2(k - e) < b * h) by (nonlinear_arith)
                requires
                    m < 2 * h,
                    p2(k - e) <= 0x8_0000_0000_0000,
                    h == 2 * 0x8_0000_0000_0000,
                    b == q * p2(e - k),
                    q >= h,
                    p2(e - k) >= 1,
            ;
        }
        assert(b > 0) by (nonlinear_arith)
            requires
                b == q * p2(e - k),
                q > 0,
                p2(e - k) >= 1,
        ;
        assert(b * 0 <= a);
        lemma_half_even_bounds(a, b, 0, 2 * h);
        let w = half_even(a, b);
        assert(w + (e + 1074) * HIDDEN < 2000 * HIDDEN) by (nonlinear_arith)
            requires
                w <= 2 * h,
                e <= 13,
                h == HIDDEN,
                HIDDEN > 0,
        ;
        assert(w + (e + 1074) * HIDDEN >= 0) by (nonlinear_arith)
            requires
                e >= -1074,
                HIDDEN > 0,
                w >= 0,
        ;
    }
}

pub proof fn lemma_nearest_zero(d: nat, k: int)
    requires
        d > 0,
    ensures
        nearest(0, d, k) == zero(),
{
    let e: int = -1074;
    lemma_p2_pos(e - k);
    let b = d * p2(e - k);
    assert(b > 0) by (nonlinear_arith)
        requires
            b == d * p2(e - k),
            d > 0,
            p2(e - k) >= 1,
    ;
    assert(0 * p2(k - e) == 0);
    assert(0 < b * (2 * HIDDEN as nat)) by (nonlinear_arith)
        requires
            b > 0,
            HIDDEN > 0,
    ;
    assert(in_binade(0, d, k, e));
    lemma_nearest_at(0, d, k, e);
    vstd::arithmetic::div_mod::lemma_basic_div(0, b as int);
    vstd::arithmetic::div_mod::lemma_small_mod(0, b);
}

pub proof fn lemma_of_zero()
    ensures
        of_int(0) == zero(),
        zero().mantissa() == 0,
        zero().exponent() == -1074,
{
    lemma_nearest_zero(1, 0);
}

/// What is held between zero and one is between zero and one.
pub proof fn lemma_clamp_unit(x: Binary64)
    ensures
        !x.is_nan() ==> !clamp_unit(x).is_nan() && !lt(clamp_unit(x), zero()) && !lt(
            one(),
            clamp_unit(x),
        ),
        x.is_nan() ==> clamp_unit(x) == x,
{
    lemma_bits_order(one(), zero());
    lemma_bits_order(one(), one());
    lemma_bits_order(zero(), one());
}

} // verus!
