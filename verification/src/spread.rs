//! How events spread over the cells of a strip.

use crate::binary64::{
    half_even, in_binade, lemma_nearest_at, lemma_nearest_zero, lemma_of_int,
    lemma_of_zero, lemma_p2_adds, lemma_p2_pos, lemma_pack, lt, nearest, of_int, p2, product,
    quotient, smaller, zero, HIDDEN,
};
use crate::decimal::{tenths, tenths_text};
use crate::figures::{law_equal_ratios_round_alike, law_quotients_are_nearest};
use crate::rounding::law_rounding_keeps_order;
use crate::surface::{cell_of, hits};
use crate::ui::{bytes_text, gauge_filled, in_unit};
use vstd::prelude::*;

verus! {

/// A whole number of up to 53 bits, divided by a power of two, is exact.
proof fn lemma_dyadic(a: nat, j: int)
    requires
        0 < a < 2 * HIDDEN,
        0 <= j <= 64,
    ensures
        ({
            let x = nearest(a, 1, -j);
            let y = of_int(a);
            &&& x.is_finite()
            &&& !x.negative()
            &&& x.mantissa() == y.mantissa()
            &&& x.exponent() == y.exponent() - j
        }),
{
    lemma_of_int(a);
    let y = of_int(a);
    let h = HIDDEN as nat;
    // The exponent of the last place is that of the number itself.
    let f = y.exponent();
    let m = y.mantissa();
    assert(p2(f) == 1);
    assert(a * p2(0 - f) == m);
    assert(1 * p2(f - 0) == 1);
    crate::binary64::lemma_mantissa(y);
    assert(in_binade(a, 1, -j, f - j)) by {
        assert(p2(-j - (f - j)) == p2(-f));
        assert(p2((f - j) - -j) == p2(f));
        assert(1 * p2((f - j) - -j) == 1);
        assert(m < 1 * (2 * h));
        assert(1 * h <= m);
    }
    lemma_nearest_at(a, 1, -j, f - j);
    assert(-j - (f - j) == -f && (f - j) - -j == f);
    assert(half_even(m, 1) == m) by {
        assert(m / 1 == m && m % 1 == 0) by (nonlinear_arith);
    }
    lemma_pack(m, f - j);
}

/// A share of a whole number is exact where both are dyadic.
proof fn lemma_dyadic_product(x: nat, j: int, cells: nat)
    requires
        0 < x < 2 * HIDDEN,
        0 <= j <= 64,
        0 < cells < 2 * HIDDEN,
    ensures
        product(nearest(x, 1, -j), of_int(cells)) == nearest(x * cells, 1, -j),
{
    let q = nearest(x, 1, -j);
    let c = of_int(cells);
    let n = x * cells;
    lemma_of_int(cells);
    lemma_dyadic(x, j);
    lemma_of_int(x);
    let i = -of_int(x).exponent();
    let k = -c.exponent();
    assert(q.mantissa() == x * p2(i) && c.mantissa() == cells * p2(k));
    lemma_p2_adds(i, k);
    let m = q.mantissa() * c.mantissa();
    assert(m == n * (p2(i) * p2(k))) by (nonlinear_arith)
        requires
            m == (x * p2(i)) * (cells * p2(k)),
            n == x * cells,
    ;
    let e = q.exponent() + c.exponent();
    assert(e == -i - j - k);
    assert(m * 1 * p2(e - -j) == n * 1 * p2(-j - e)) by {
        assert(e - -j == -(i + k) && -j - e == i + k);
        assert(p2(-(i + k)) == 1);
        assert(m * 1 * 1 == n * 1 * p2(i + k)) by (nonlinear_arith)
            requires
                m == n * (p2(i) * p2(k)),
                p2(i + k) == p2(i) * p2(k),
        ;
    }
    law_equal_ratios_round_alike(m, 1, e, n, 1, -j);
    law_rounding_keeps_order(n, 1, -j, n, 1, -j);
}

/// The cell of an offset, where the size of the device is a power of two: the share
/// of the cells that the offset is of the size, cut off.
pub proof fn law_cell_is_the_share(offset: u64, size: u64, j: int, cells: nat)
    requires
        0 <= j <= 52,
        size == p2(j),
        offset < size,
        0 < cells < 2 * HIDDEN,
        offset * cells < 2 * HIDDEN,
    ensures
        cell_of(offset, size, cells) == offset as nat * cells / p2(j),
        cell_of(offset, size, cells) < cells,
{
    let x = offset as nat;
    let n = x * cells;
    let s = p2(j);
    lemma_p2_pos(j);
    vstd::arithmetic::power2::lemma2_to64();
    vstd::arithmetic::power2::lemma2_to64_rest();
    crate::binary64::lemma_p2_mono(j, 52);
    assert(n / s < cells) by (nonlinear_arith)
        requires
            n == x * cells,
            x < s,
            cells > 0,
            s > 0,
    ;
    law_quotients_are_nearest(x, s);
    let q = nearest(x, s, 0);
    let c = of_int(cells);
    lemma_of_int(cells);
    if x == 0 {
        lemma_nearest_zero(s, 0);
        lemma_of_zero();
        assert(0 * c.mantissa() == 0);
        lemma_nearest_zero(1, zero().exponent() + c.exponent());
        crate::rounding::lemma_exact_int(0);
        assert(n == 0) by (nonlinear_arith)
            requires
                n == x * cells,
                x == 0,
        ;
        assert(0nat / s == 0) by (nonlinear_arith)
            requires
                s > 0,
        ;
    } else {
        assert(p2(-j) == 1);
        assert(x * 1 * p2(0 - -j) == x * s * p2(-j - 0)) by (nonlinear_arith)
            requires
                s == p2(0 - -j),
                p2(-j - 0) == 1,
        ;
        law_equal_ratios_round_alike(x, s, 0, x, 1, -j);
        lemma_dyadic(x, j);
        lemma_of_int(x);
        lemma_dyadic_product(x, j, cells);
        assert(n > 0) by (nonlinear_arith)
            requires
                n == x * cells,
                x > 0,
                cells > 0,
        ;
        lemma_dyadic(n, j);
        lemma_of_int(n);
        let r = nearest(n, 1, -j);
        let l = -of_int(n).exponent();
        assert(r.mantissa() == n * p2(l) && r.exponent() == -l - j);
        lemma_p2_adds(l, j);
        lemma_p2_pos(l);
        assert(p2(r.exponent()) == 1);
        assert(r.mantissa() * p2(r.exponent()) == n * p2(l)) by (nonlinear_arith)
            requires
                p2(r.exponent()) == 1,
                r.mantissa() == n * p2(l),
        ;
        assert(p2(-r.exponent()) == p2(l) * s);
        lemma_cancel(n, p2(l), s);
    }
}

proof fn lemma_cancel(n: nat, c: nat, s: nat)
    requires
        c > 0,
        s > 0,
    ensures
        (n * c) / (c * s) == n / s,
{
    let q = n / s;
    let r = n % s;
    vstd::arithmetic::div_mod::lemma_fundamental_div_mod(n as int, s as int);
    vstd::arithmetic::div_mod::lemma_mod_bound(n as int, s as int);
    assert(n * c == q * (c * s) + r * c) by (nonlinear_arith)
        requires
            n == s * q + r,
    ;
    assert(0 <= r * c < c * s) by (nonlinear_arith)
        requires
            0 <= r < s,
            c > 0,
    ;
    vstd::arithmetic::div_mod::lemma_fundamental_div_mod_converse(
        (n * c) as int,
        (c * s) as int,
        q as int,
        (r * c) as int,
    );
}

/// The start of a device falls into the first cell, and what lies beyond its end
/// into the cell of its end.
pub proof fn law_cells_at_the_ends(offset: u64, size: u64, cells: nat)
    requires
        size > 0,
        0 < cells <= u64::MAX,
    ensures
        cell_of(0, size, cells) == 0,
        offset >= size ==> cell_of(offset, size, cells) == cell_of((size - 1) as u64, size, cells),
{
    lemma_of_zero();
    lemma_of_int(size as nat);
    lemma_of_int(cells);
    let d = of_int(size as nat);
    let c = of_int(cells);
    crate::binary64::lemma_mantissa(d);
    lemma_nearest_zero(d.mantissa(), zero().exponent() - d.exponent());
    assert(0 * c.mantissa() == 0);
    lemma_nearest_zero(1, zero().exponent() + c.exponent());
    crate::rounding::lemma_exact_int(0);
}

/// A cell holds as many events as fall into it.
pub proof fn law_cells_count_their_events(offs: Seq<u64>, size: u64, cells: nat, cell: nat)
    ensures
        hits(offs, size, cells, cell) == offs.filter(
            |o: u64| cell_of(o, size, cells) == cell,
        ).len(),
    decreases offs.len(),
{
    reveal(Seq::filter);
    if offs.len() > 0 {
        law_cells_count_their_events(offs.drop_last(), size, cells, cell);
    }
}

/// A gauge is filled by the share that the progress is of its cells, to the nearest
/// cell, where the progress is a fraction with a power of two below.
pub proof fn law_gauge_fills_by_the_share(a: nat, j: int, body: nat)
    requires
        0 < a <= p2(j),
        0 <= j <= 52,
        0 < body < 2 * HIDDEN,
        a * body < 2 * HIDDEN,
    ensures
        gauge_filled(nearest(a, p2(j), 0), body) == (2 * (a * body) + p2(j)) / (2 * p2(j)),
{
    let s = p2(j);
    let n = a * body;
    lemma_p2_pos(j);
    vstd::arithmetic::power2::lemma2_to64();
    vstd::arithmetic::power2::lemma2_to64_rest();
    crate::binary64::lemma_p2_mono(j, 52);
    assert(p2(-j) == 1);
    assert(a * 1 * p2(0 - -j) == a * s * p2(-j - 0)) by (nonlinear_arith)
        requires
            s == p2(0 - -j),
            p2(-j - 0) == 1,
    ;
    law_equal_ratios_round_alike(a, s, 0, a, 1, -j);
    lemma_dyadic_product(a, j, body);
    let x = nearest(a, 1, -j);
    let c = of_int(body);
    crate::rounding::lemma_product_commutes(x, c);
    assert(n > 0) by (nonlinear_arith)
        requires
            n == a * body,
            a > 0,
            body > 0,
    ;
    lemma_dyadic(n, j);
    lemma_of_int(n);
    let r = nearest(n, 1, -j);
    let l = -of_int(n).exponent();
    assert(r.mantissa() == n * p2(l) && r.exponent() == -l - j);
    lemma_p2_adds(l, j);
    lemma_p2_pos(l);
    assert(p2(r.exponent()) == 1);
    assert(p2(-r.exponent()) == p2(l) * s);
    let g = p2(l);
    assert(2 * r.mantissa() * p2(r.exponent()) + p2(-r.exponent()) == (2 * n + s) * g)
        by (nonlinear_arith)
        requires
            r.mantissa() == n * g,
            p2(r.exponent()) == 1,
            p2(-r.exponent()) == g * s,
    ;
    assert(2 * p2(-r.exponent()) == g * (2 * s)) by (nonlinear_arith)
        requires
            p2(-r.exponent()) == g * s,
    ;
    lemma_cancel(2 * n + s, g, 2 * s);
    assert((2 * n + s) / (2 * s) <= 2 * n + s) by (nonlinear_arith)
        requires
            s > 0,
    ;
}

proof fn lemma_next_unit(b: nat, i: nat)
    requires
        0 < b < 2 * HIDDEN,
        i <= 5,
    ensures
        quotient(nearest(b, 1, -(10 * i)), of_int(1024)) == nearest(b, 1, -(10 * i + 10)),
        lt(nearest(b, 1, -(10 * i)), of_int(1024)) <==> b < p2(10 * i as int + 10),
{
    let j = (10 * i) as int;
    lemma_dyadic(b, j);
    lemma_of_int(b);
    lemma_of_int(1024);
    vstd::arithmetic::power2::lemma2_to64();
    vstd::arithmetic::power2::lemma2_to64_rest();
    let x = nearest(b, 1, -j);
    let y = of_int(1024);
    let l = -of_int(b).exponent();
    let t = -y.exponent();
    let m = x.mantissa();
    let d = y.mantissa();
    assert(m == b * p2(l) && x.exponent() == -l - j);
    assert(d == 1024 * p2(t));
    crate::binary64::lemma_mantissa(y);
    let k = x.exponent() - y.exponent();
    assert(k == t - l - j);
    // m / d * 2^k is b / 1024 * 2^-j.
    let z = -(j + 10);
    assert(m * 1 * p2(k - z) == b * d * p2(z - k)) by {
        assert(k - z == t - l + 10);
        lemma_p2_pos(l);
        lemma_p2_pos(t);
        assert(p2(10) == 1024);
        if t - l + 10 >= 0 {
            assert(p2(z - k) == 1);
            lemma_p2_adds(l, t - l + 10);
            lemma_p2_adds(t, 10);
            assert(p2(l) * p2(t - l + 10) == p2(t) * 1024);
            assert(m * 1 * p2(t - l + 10) == b * d * 1) by (nonlinear_arith)
                requires
                    m == b * p2(l),
                    d == 1024 * p2(t),
                    p2(l) * p2(t - l + 10) == p2(t) * 1024,
            ;
        } else {
            assert(p2(k - z) == 1);
            lemma_p2_adds(t + 10, l - t - 10);
            lemma_p2_adds(t, 10);
            assert(p2(l) == p2(t) * 1024 * p2(l - t - 10)) by (nonlinear_arith)
                requires
                    p2(l) == p2(t + 10) * p2(l - t - 10),
                    p2(t + 10) == p2(t) * 1024,
            ;
            assert(m * 1 * 1 == b * d * p2(l - t - 10)) by (nonlinear_arith)
                requires
                    m == b * p2(l),
                    d == 1024 * p2(t),
                    p2(l) == p2(t) * 1024 * p2(l - t - 10),
            ;
        }
    }
    law_equal_ratios_round_alike(m, d, k, b, 1, z);
    law_rounding_keeps_order(b, 1, z, b, 1, z);
    // The order of x and 1024.
    assert(lt(x, y) <==> smaller(x, y));
    let u = x.exponent() - y.exponent();
    assert(smaller(x, y) <==> m * p2(u) < d * p2(-u));
    lemma_order(b, p2(l), p2(t), j, l, t);
}

proof fn lemma_order(b: nat, pl: nat, pt: nat, j: int, l: int, t: int)
    requires
        0 <= j,
        0 <= l,
        0 <= t,
        pl == p2(l),
        pt == p2(t),
    ensures
        (b * pl) * p2(t - l - j) < (1024 * pt) * p2(l + j - t) <==> b < p2(j + 10),
{
    vstd::arithmetic::power2::lemma2_to64();
    assert(p2(10) == 1024);
    lemma_p2_adds(j, 10);
    lemma_p2_pos(l);
    lemma_p2_pos(t);
    lemma_p2_adds(l, j);
    if t >= l + j {
        // pt == pl * 2^j * 2^(t - l - j)
        let r = p2(t - l - j);
        lemma_p2_pos(t - l - j);
        lemma_p2_adds(l + j, t - l - j);
        assert(p2(l + j - t) == 1);
        let c = pl * r;
        assert(c > 0) by (nonlinear_arith)
            requires
                c == pl * r,
                pl >= 1,
                r >= 1,
        ;
        let q = p2(j + 10);
        assert((b * pl) * r == b * c) by (nonlinear_arith)
            requires
                c == pl * r,
        ;
        assert((1024 * pt) * 1 == q * c) by (nonlinear_arith)
            requires
                pt == (pl * p2(j)) * r,
                q == p2(j) * 1024,
                c == pl * r,
        ;
        assert(b * c < q * c <==> b < q) by (nonlinear_arith)
            requires
                c > 0,
        ;
    } else {
        let r = p2(l + j - t);
        lemma_p2_pos(l + j - t);
        lemma_p2_adds(t, l + j - t);
        assert(p2(t - l - j) == 1);
        let q = p2(j + 10);
        assert((1024 * pt) * r == q * pl) by (nonlinear_arith)
            requires
                pt * r == pl * p2(j),
                q == p2(j) * 1024,
        ;
        assert((b * pl) * 1 < q * pl <==> b < q) by (nonlinear_arith)
            requires
                pl >= 1,
        ;
    }
}

proof fn lemma_units(b: nat, i: nat, k: nat)
    requires
        0 < b < 2 * HIDDEN,
        i <= k <= 5,
        p2(10 * k as int) <= b,
        b < p2(10 * k as int + 10),
    ensures
        in_unit(nearest(b, 1, -(10 * i)), i) == (nearest(b, 1, -(10 * k)), k),
    decreases k - i,
{
    lemma_next_unit(b, i);
    if i < k {
        crate::binary64::lemma_p2_mono(10 * i as int + 10, 10 * k as int);
        lemma_units(b, i + 1, k);
        assert(10 * (i + 1) == 10 * i + 10);
    }
}

/// A byte count is shown in the greatest unit of which there is at least one, with
/// its tenths to the nearest, halves to the even one.
pub proof fn law_byte_counts_are_shown(bytes: u64, k: nat)
    requires
        bytes < 2 * HIDDEN,
        1 <= k <= 5,
        p2(10 * k as int) <= bytes < p2(10 * k as int + 10),
    ensures
        bytes_text(bytes) == tenths_text(half_even(10 * bytes as nat, p2(10 * k as int))) + seq![' '] + (
        if k == 1 {
            seq!['K', 'i', 'B']
        } else if k == 2 {
            seq!['M', 'i', 'B']
        } else if k == 3 {
            seq!['G', 'i', 'B']
        } else if k == 4 {
            seq!['T', 'i', 'B']
        } else {
            seq!['P', 'i', 'B']
        }),
{
    let b = bytes as nat;
    lemma_p2_pos(10 * k as int);
    lemma_units(b, 0, k);
    let j = (10 * k) as int;
    lemma_dyadic(b, j);
    lemma_of_int(b);
    let x = nearest(b, 1, -j);
    let l = -of_int(b).exponent();
    let s = p2(j);
    let g = p2(l);
    lemma_p2_pos(l);
    lemma_p2_adds(l, j);
    assert(x.mantissa() == b * g && x.exponent() == -l - j);
    assert(p2(x.exponent()) == 1);
    assert(10 * x.mantissa() * p2(x.exponent()) == (10 * b) * g) by (nonlinear_arith)
        requires
            x.mantissa() == b * g,
            p2(x.exponent()) == 1,
    ;
    assert(p2(-x.exponent()) == g * s);
    lemma_half_even_scales(10 * b, s, g);
    assert(Seq::<char>::empty() + tenths_text(tenths(x)) == tenths_text(tenths(x)));
    assert("KiB"@ =~= seq!['K', 'i', 'B']) by {
        reveal_strlit("KiB");
    }
    assert("MiB"@ =~= seq!['M', 'i', 'B']) by {
        reveal_strlit("MiB");
    }
    assert("GiB"@ =~= seq!['G', 'i', 'B']) by {
        reveal_strlit("GiB");
    }
    assert("TiB"@ =~= seq!['T', 'i', 'B']) by {
        reveal_strlit("TiB");
    }
    assert("PiB"@ =~= seq!['P', 'i', 'B']) by {
        reveal_strlit("PiB");
    }
}

proof fn lemma_half_even_scales(a: nat, b: nat, c: nat)
    requires
        b > 0,
        c > 0,
    ensures
        half_even(a * c, c * b) == half_even(a, b),
{
    lemma_cancel(a, c, b);
    let q = a / b;
    let r = a % b;
    vstd::arithmetic::div_mod::lemma_fundamental_div_mod(a as int, b as int);
    let w = c * b;
    assert(w > 0) by (nonlinear_arith)
        requires
            w == c * b,
            b > 0,
            c > 0,
    ;
    vstd::arithmetic::div_mod::lemma_fundamental_div_mod((a * c) as int, w as int);
    let v = (a * c) % w;
    assert(v == r * c) by (nonlinear_arith)
        requires
            a == b * q + r,
            a * c == w * q + v,
            w == c * b,
    ;
    assert(2 * v < w <==> 2 * r < b) by (nonlinear_arith)
        requires
            v == r * c,
            w == c * b,
            c > 0,
    ;
    assert(2 * v == w <==> 2 * r == b) by (nonlinear_arith)
        requires
            v == r * c,
            w == c * b,
            c > 0,
    ;
}

} // verus!
