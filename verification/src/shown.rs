//! What the rendering helpers show, value by value.

use crate::binary64::{
    clamp_unit, lemma_bits_order, lemma_nearest_zero, lemma_of_int, lemma_of_zero, lemma_p2_pos,
    nearest, of_int, one, p2, product, zero, Binary64, HIDDEN, INFINITY, ONE,
};
use crate::decimal::{tenths, tenths_text};
use crate::figures::{
    law_equal_ratios_round_alike, law_quotients_are_nearest, law_tenths_are_kept, law_tenths_grow,
    law_whole_numbers_are_shown, law_whole_numbers_keep_their_order, law_whole_quotients_are_exact,
};
use crate::model::{
    law_progress_reaches_its_ends, progress_ratio, PoolHealth, ScanStats,
};
use crate::number::{decimal, digit_char, digit_value, lemma_decimal};
use crate::rounding::{law_rounding_keeps_order, lemma_times_one, no_more};
use crate::style::{CellView, Color, Style};
use crate::surface::{
    assumed_size, density, density_color, greatest, lemma_ascii_bytes, lemma_ascii_tail,
    short_name, strip_text, tail_of_bytes,
};
use crate::text::byte_len;
use crate::ui::{
    border_style, bytes_text, colorless, fraction_text, gauge_body, gauge_filled, gauge_text,
    in_unit, key_position, lemma_gauge_fits, markers, percent_text, tab_look, title_style,
    unit_text,
};
use vstd::prelude::*;

verus! {

/// The focused panel has a bold cyan title and a cyan border; any other is plain.
pub proof fn law_focus_is_cyan(panel_focus: usize, panel: usize)
    ensures
        panel_focus == panel ==> title_style(panel_focus, panel) == (Style {
            fg: Some(Color::Cyan),
            bold: true,
        }),
        panel_focus == panel ==> border_style(panel_focus, panel) == (Style {
            fg: Some(Color::Cyan),
            bold: false,
        }),
        panel_focus != panel ==> title_style(panel_focus, panel) == (Style {
            fg: None,
            bold: false,
        }),
        panel_focus != panel ==> border_style(panel_focus, panel) == (Style {
            fg: None,
            bold: false,
        }),
{
}

/// The markers of a tab show its grade first and a running scan behind it.
pub proof fn law_markers_by_grade(scanning: bool)
    ensures
        markers(PoolHealth::Healthy, false).len() == 0,
        markers(PoolHealth::Healthy, true) == seq!['⟳'],
        markers(PoolHealth::Degraded, false) == seq!['!'],
        markers(PoolHealth::Degraded, true) == seq!['!', '⟳'],
        markers(PoolHealth::Fault, false) == seq!['✚'],
        markers(PoolHealth::Fault, true) == seq!['✚', '⟳'],
{
    reveal_strlit("✚");
    reveal_strlit("!");
    reveal_strlit("");
    assert(markers(PoolHealth::Healthy, true) =~= seq!['⟳']);
    assert(markers(PoolHealth::Degraded, false) =~= seq!['!']);
    assert(markers(PoolHealth::Degraded, true) =~= seq!['!', '⟳']);
    assert(markers(PoolHealth::Fault, false) =~= seq!['✚']);
    assert(markers(PoolHealth::Fault, true) =~= seq!['✚', '⟳']);
}

/// The look of a tab: the active one is bold cyan; on the others a fault is red, a
/// degraded pool or a running scan yellow, and the rest gray.
pub proof fn law_tabs_by_grade(health: PoolHealth, scanning: bool)
    ensures
        tab_look(health, scanning, true) == (Style { fg: Some(Color::Cyan), bold: true }),
        !tab_look(health, scanning, false).bold,
        tab_look(health, scanning, false).fg == Some(Color::Red) <==> health is Fault,
        tab_look(health, scanning, false).fg == Some(Color::Yellow) <==> health is Degraded || (
        health is Healthy && scanning),
        tab_look(health, scanning, false).fg == Some(Color::DarkGray) <==> health is Healthy
            && !scanning,
{
}

/// The letters of the Korean layout, row by row, stand on the keys of the QWERTY
/// layout, row by row; those that need the shift key stand on the same keys; and no
/// other character is moved.
pub proof fn law_keys_by_position(c: char)
    ensures
        ({
            let top = seq!['ㅂ', 'ㅈ', 'ㄷ', 'ㄱ', 'ㅅ', 'ㅛ', 'ㅕ', 'ㅑ', 'ㅐ', 'ㅔ'];
            let top_keys = seq!['q', 'w', 'e', 'r', 't', 'y', 'u', 'i', 'o', 'p'];
            let home = seq!['ㅁ', 'ㄴ', 'ㅇ', 'ㄹ', 'ㅎ', 'ㅗ', 'ㅓ', 'ㅏ', 'ㅣ'];
            let home_keys = seq!['a', 's', 'd', 'f', 'g', 'h', 'j', 'k', 'l'];
            let bottom = seq!['ㅋ', 'ㅌ', 'ㅊ', 'ㅍ', 'ㅠ', 'ㅜ', 'ㅡ'];
            let bottom_keys = seq!['z', 'x', 'c', 'v', 'b', 'n', 'm'];
            let shifted = seq!['ㅃ', 'ㅉ', 'ㄸ', 'ㄲ', 'ㅆ', 'ㅒ', 'ㅖ'];
            let shifted_keys = seq!['q', 'w', 'e', 'r', 't', 'o', 'p'];
            &&& forall|i: int| 0 <= i < 10 ==> key_position(#[trigger] top[i]) == top_keys[i]
            &&& forall|i: int| 0 <= i < 9 ==> key_position(#[trigger] home[i]) == home_keys[i]
            &&& forall|i: int| 0 <= i < 7 ==> key_position(#[trigger] bottom[i]) == bottom_keys[i]
            &&& forall|i: int|
                0 <= i < 7 ==> key_position(#[trigger] shifted[i]) == shifted_keys[i]
            &&& key_position(c) != c ==> top.contains(c) || home.contains(c) || bottom.contains(
                c,
            ) || shifted.contains(c)
        }),
{
    let top = seq!['ㅂ', 'ㅈ', 'ㄷ', 'ㄱ', 'ㅅ', 'ㅛ', 'ㅕ', 'ㅑ', 'ㅐ', 'ㅔ'];
    let home = seq!['ㅁ', 'ㄴ', 'ㅇ', 'ㄹ', 'ㅎ', 'ㅗ', 'ㅓ', 'ㅏ', 'ㅣ'];
    let bottom = seq!['ㅋ', 'ㅌ', 'ㅊ', 'ㅍ', 'ㅠ', 'ㅜ', 'ㅡ'];
    let shifted = seq!['ㅃ', 'ㅉ', 'ㄸ', 'ㄲ', 'ㅆ', 'ㅒ', 'ㅖ'];
    if key_position(c) != c {
        assert(c == top[0] || c == top[1] || c == top[2] || c == top[3] || c == top[4] || c
            == top[5] || c == top[6] || c == top[7] || c == top[8] || c == top[9] || c == home[0]
            || c == home[1] || c == home[2] || c == home[3] || c == home[4] || c == home[5] || c
            == home[6] || c == home[7] || c == home[8] || c == bottom[0] || c == bottom[1] || c
            == bottom[2] || c == bottom[3] || c == bottom[4] || c == bottom[5] || c == bottom[6]
            || c == shifted[0] || c == shifted[1] || c == shifted[2] || c == shifted[3] || c
            == shifted[4] || c == shifted[5] || c == shifted[6]);
    }
}

/// Scrubbing takes every color of a cell and nothing else.
pub proof fn law_scrubbing_takes_every_color(c: CellView)
    ensures
        colorless(c).fg == Color::Reset,
        colorless(c).bg == Color::Reset,
        colorless(c).underline_color == Color::Reset,
        colorless(c).symbol == c.symbol,
        colorless(c).modifier == c.modifier,
{
}

/// The density characters by count, as the legend has them, and their colors.
pub proof fn law_density_by_count(n: u32)
    ensures
        density(n) == '·' <==> n == 0,
        density(n) == '░' <==> 1 <= n <= 2,
        density(n) == '▒' <==> 3 <= n <= 6,
        density(n) == '▓' <==> 7 <= n <= 15,
        density(n) == '█' <==> n >= 16,
        density_color('·') == Color::DarkGray,
        density_color('░') == Color::Yellow,
        density_color('▒') == Color::LightYellow,
        density_color('▓') == Color::Red,
        density_color('█') == Color::Red,
{
}

/// A strip has one character for each count, in order.
pub proof fn law_strip_by_count(counts: Seq<u32>, i: int)
    requires
        0 <= i < counts.len(),
    ensures
        strip_text(counts).len() == counts.len(),
        strip_text(counts)[i] == density(counts[i]),
{
}

/// A name of ASCII characters that fits is shown whole; of one that does not, its
/// end is shown behind an ellipsis.
pub proof fn law_names_are_shortened_in_front(name: Seq<char>, width: nat)
    requires
        width > 0,
        forall|i: int| 0 <= i < name.len() ==> (#[trigger] name[i] as u32) < 128,
    ensures
        name.len() <= width ==> short_name(name, width) == Some(name),
        name.len() > width ==> short_name(name, width) == Some(
            seq!['…'] + name.skip(name.len() - (width - 1)),
        ),
{
    lemma_ascii_bytes(name);
    if name.len() > width {
        lemma_ascii_tail(name, (width - 1) as nat);
    }
}

/// The greatest of some offsets is one of them, and none is greater.
pub proof fn law_greatest_offset(offs: Seq<u64>)
    ensures
        forall|i: int| 0 <= i < offs.len() ==> #[trigger] offs[i] <= greatest(offs),
        offs.len() > 0 ==> offs.contains(greatest(offs)),
        offs.len() == 0 ==> assumed_size(offs) == 2,
        offs.len() > 0 ==> assumed_size(offs) > greatest(offs) || greatest(offs) == u64::MAX,
        offs.len() > 0 && greatest(offs) < u64::MAX ==> assumed_size(offs) == greatest(offs) + 1,
    decreases offs.len(),
{
    if offs.len() > 0 {
        let d = offs.drop_last();
        law_greatest_offset(d);
        assert forall|i: int| 0 <= i < offs.len() implies #[trigger] offs[i] <= greatest(offs) by {
            if i < d.len() {
                assert(d[i] <= greatest(d));
            }
        }
        if offs.last() > greatest(d) || d.len() == 0 {
            assert(offs[offs.len() - 1] == offs.last());
            if d.len() == 0 {
                assert(greatest(d) == 0);
                assert(greatest(offs) == offs.last());
            }
        } else {
            let k = choose|k: int| 0 <= k < d.len() && d[k] == greatest(d);
            assert(offs[k] == greatest(d));
        }
    }
}

/// Progress is the share of what has been examined: the number nearest to that
/// ratio, and one once it is reached. Nothing else of a scan changes it.
pub proof fn law_progress_is_the_share(s: ScanStats)
    requires
        s.progress_override is None,
        s.examined < 2 * HIDDEN,
        0 < s.to_examine < 2 * HIDDEN,
    ensures
        s.examined < s.to_examine ==> progress_ratio(s) == Some(
            nearest(s.examined as nat, s.to_examine as nat, 0),
        ),
        s.examined >= s.to_examine ==> progress_ratio(s) == Some(one()),
{
    let a = s.examined as nat;
    let b = s.to_examine as nat;
    if s.examined >= s.to_examine {
        law_progress_reaches_its_ends(s);
    } else {
        law_quotients_are_nearest(a, b);
        let q = nearest(a, b, 0);
        assert(no_more(a, b, 0, 1, 1, 0)) by {
            assert(a * 1 * p2(0) <= 1 * b * p2(0)) by (nonlinear_arith)
                requires
                    a <= b,
            ;
        }
        law_rounding_keeps_order(a, b, 0, 1, 1, 0);
        lemma_one();
        lemma_bits_order(one(), q);
        lemma_bits_order(q, zero());
    }
}

pub proof fn lemma_one()
    ensures
        nearest(1, 1, 0) == one(),
        of_int(1) == one(),
{
    lemma_of_int(1);
    let x = of_int(1);
    crate::rounding::lemma_self_quotient(x);
    law_quotients_are_nearest(1, 1);
}

/// A ratio that was given counts before the counters: as it is between zero and one,
/// held there otherwise, and not at all where it is no number.
pub proof fn law_given_ratio_counts(s: ScanStats, r: Binary64)
    requires
        s.progress_override == Some(r),
    ensures
        r.is_nan() ==> progress_ratio(s) is None,
        r.bits <= ONE ==> progress_ratio(s) == Some(r),
        ONE < r.bits <= INFINITY ==> progress_ratio(s) == Some(one()),
        r.negative() && !r.is_nan() && !r.is_zero() ==> progress_ratio(s) == Some(zero()),
{
    if r.bits < INFINITY {
        lemma_bits_order(one(), r);
        lemma_bits_order(r, zero());
    }
}

/// Two scans with the same counts and the same given ratio have the same progress.
pub proof fn law_progress_goes_by_the_counts(s: ScanStats, t: ScanStats)
    requires
        s.examined == t.examined,
        s.to_examine == t.to_examine,
        s.progress_override == t.progress_override,
    ensures
        progress_ratio(s) == progress_ratio(t),
{
}

proof fn lemma_percent(r: Binary64)
    requires
        r.bits <= ONE,
    ensures
        clamp_unit(r) == r,
        product(r, of_int(100)) == nearest(100 * r.mantissa(), 1, r.exponent()),
        product(r, of_int(100)).bits < INFINITY,
{
    lemma_bits_order(one(), r);
    lemma_bits_order(r, zero());
    lemma_of_int(100);
    let h = of_int(100);
    let m = r.mantissa();
    let k = r.exponent();
    let j = -h.exponent();
    lemma_p2_pos(j);
    assert(m * h.mantissa() * 1 * p2((k - j) - k) == 100 * m * 1 * p2(k - (k - j))) by {
        assert(p2((k - j) - k) == 1);
        assert(m * h.mantissa() * 1 * 1 == 100 * m * 1 * p2(j)) by (nonlinear_arith)
            requires
                h.mantissa() == 100 * p2(j),
        ;
    }
    law_equal_ratios_round_alike(m * h.mantissa(), 1, k - j, 100 * m, 1, k);
    law_rounding_keeps_order(100 * m, 1, k, 100 * m, 1, k);
    crate::rounding::lemma_product_mono(r, one(), h);
    lemma_times_one(h);
    crate::rounding::lemma_product_commutes(one(), h);
}

/// The percentage of a ratio between `t` and `t + 1` thousandths reads `t` or `t + 1`
/// tenths of a percent.
pub proof fn law_percentage_is_near(r: Binary64, t: nat)
    requires
        r.bits <= ONE,
        t <= 1000,
        t * p2(-r.exponent()) <= 1000 * r.mantissa() * p2(r.exponent()),
        1000 * r.mantissa() * p2(r.exponent()) <= (t + 1) * p2(-r.exponent()),
    ensures
        exists|u: nat|
            t <= u <= t + 1 && percent_text(Some(r)) == (#[trigger] tenths_text(u)).push('%'),
{
    let m = r.mantissa();
    let k = r.exponent();
    lemma_percent(r);
    let x = product(r, of_int(100));
    assert(no_more(t, 10, 0, 100 * m, 1, k)) by {
        assert(t * 1 * p2(0 - k) <= 100 * m * 10 * p2(k - 0)) by (nonlinear_arith)
            requires
                t * p2(0 - k) <= 1000 * m * p2(k - 0),
        ;
    }
    assert(no_more(100 * m, 1, k, t + 1, 10, 0)) by {
        assert(100 * m * 10 * p2(k - 0) <= (t + 1) * 1 * p2(0 - k)) by (nonlinear_arith)
            requires
                1000 * m * p2(k - 0) <= (t + 1) * p2(0 - k),
        ;
    }
    law_rounding_keeps_order(t, 10, 0, 100 * m, 1, k);
    law_rounding_keeps_order(100 * m, 1, k, t + 1, 10, 0);
    law_tenths_are_kept(t);
    law_tenths_are_kept(t + 1);
    law_tenths_grow(nearest(t, 10, 0), x);
    law_tenths_grow(x, nearest(t + 1, 10, 0));
    let u = tenths(x);
    assert(Seq::<char>::empty() + tenths_text(u) == tenths_text(u));
    assert(percent_text(Some(r)) == tenths_text(u).push('%'));
}

/// No progress reads `0.0%` and all of it `100.0%`.
pub proof fn law_percentage_at_its_ends()
    ensures
        percent_text(Some(zero())) == "0.0%"@,
        percent_text(Some(one())) == "100.0%"@,
{
    lemma_percent(zero());
    lemma_percent(one());
    lemma_of_zero();
    lemma_nearest_zero(1, zero().exponent());
    assert(100 * 0 == 0nat);
    law_whole_numbers_are_shown(0);
    law_whole_numbers_are_shown(100);
    let h = of_int(100);
    lemma_of_int(100);
    lemma_times_one(h);
    crate::rounding::lemma_product_commutes(one(), h);
    reveal_strlit("0.0%");
    reveal_strlit("100.0%");
    assert(decimal(0) =~= seq!['0']);
    assert(decimal(1) =~= seq!['1']);
    assert(100nat / 10 == 10 && 100nat % 10 == 0);
    assert(10nat / 10 == 1 && 10nat % 10 == 0);
    assert(decimal(10) =~= seq!['1', '0']);
    assert(decimal(100) =~= seq!['1', '0', '0']);
    assert((seq!['0'] + seq!['.', '0']).push('%') =~= "0.0%"@);
    assert((seq!['1', '0', '0'] + seq!['.', '0']).push('%') =~= "100.0%"@);
}

/// A number of 1024 to the power of `k`.
pub open spec fn kibi(k: nat) -> nat
    decreases k,
{
    if k == 0 {
        1
    } else {
        1024 * kibi((k - 1) as nat)
    }
}

proof fn lemma_kibi()
    ensures
        kibi(0) == 1,
        kibi(1) == 0x400,
        kibi(2) == 0x10_0000,
        kibi(3) == 0x4000_0000,
        kibi(4) == 0x100_0000_0000,
{
    reveal_with_fuel(kibi, 5);
}

proof fn lemma_in_unit(n: nat, k: nat, unit: nat)
    requires
        0 < n < 1024,
        k <= 4,
        unit + k <= 4,
    ensures
        in_unit(of_int(n * kibi(k)), unit) == (of_int(n), unit + k),
    decreases k,
{
    lemma_kibi();
    if k == 0 {
        assert(n * kibi(0) == n);
        law_whole_numbers_keep_their_order(n, 1024);
    } else {
        let j = (k - 1) as nat;
        let v = n * kibi(k);
        let w = n * kibi(j);
        assert(v == w * 1024) by (nonlinear_arith)
            requires
                v == n * (1024 * kibi(j)),
                w == n * kibi(j),
        ;
        assert(w >= 1 && w < 0x4_0000_0000_0000) by (nonlinear_arith)
            requires
                w == n * kibi(j),
                0 < n < 1024,
                1 <= kibi(j) <= 0x100_0000_0000,
        ;
        assert(kibi(j) <= 0x4000_0000) by {
            assert(j == 0 || j == 1 || j == 2 || j == 3);
        }
        assert(w < 0x100_0000_0000) by (nonlinear_arith)
            requires
                w == n * kibi(j),
                0 < n < 1024,
                1 <= kibi(j) <= 0x4000_0000,
        ;
        law_whole_numbers_keep_their_order(v, 1024);
        law_whole_quotients_are_exact(w, 1024);
        lemma_in_unit(n, j, unit + 1);
    }
}

proof fn lemma_shown_in(n: nat, k: nat, bytes: u64)
    requires
        0 < n < 1024,
        k <= 4,
        bytes == n * kibi(k),
    ensures
        k == 0 ==> bytes_text(bytes) == decimal(n) + seq![' '] + "B"@,
        k > 0 ==> bytes_text(bytes) == decimal(n) + seq!['.', '0'] + seq![' '] + unit_text(k),
{
    lemma_kibi();
    lemma_in_unit(n, k, 0);
    law_whole_numbers_are_shown(n);
    if k == 0 {
        assert(n * kibi(0) == n);
    }
}

/// A byte count that is a whole number of a unit, and less than 1024 of it, is shown
/// in that unit: bytes as they are, and a zero behind the point in any other.
pub proof fn law_byte_counts_by_unit(n: nat, bytes: u64)
    requires
        0 < n < 1024,
    ensures
        bytes == n ==> bytes_text(bytes) == decimal(n) + seq![' ', 'B'],
        bytes == n * 0x400 ==> bytes_text(bytes) == decimal(n) + seq!['.', '0', ' ', 'K', 'i', 'B'],
        bytes == n * 0x10_0000 ==> bytes_text(bytes) == decimal(n) + seq![
            '.',
            '0',
            ' ',
            'M',
            'i',
            'B',
        ],
        bytes == n * 0x4000_0000 ==> bytes_text(bytes) == decimal(n) + seq![
            '.',
            '0',
            ' ',
            'G',
            'i',
            'B',
        ],
        bytes == n * 0x100_0000_0000 ==> bytes_text(bytes) == decimal(n) + seq![
            '.',
            '0',
            ' ',
            'T',
            'i',
            'B',
        ],
{
    lemma_kibi();
    let d = decimal(n);
    if bytes == n {
        assert(n * kibi(0) == n);
        lemma_shown_in(n, 0, bytes);
        assert("B"@ =~= seq!['B']) by {
            reveal_strlit("B");
        }
        assert(d + seq![' '] + seq!['B'] =~= d + seq![' ', 'B']);
    } else if bytes == n * 0x400 {
        lemma_shown_in(n, 1, bytes);
        assert("KiB"@ =~= seq!['K', 'i', 'B']) by {
            reveal_strlit("KiB");
        }
        assert(d + seq!['.', '0'] + seq![' '] + seq!['K', 'i', 'B'] =~= d + seq![
            '.',
            '0',
            ' ',
            'K',
            'i',
            'B',
        ]);
    } else if bytes == n * 0x10_0000 {
        lemma_shown_in(n, 2, bytes);
        assert("MiB"@ =~= seq!['M', 'i', 'B']) by {
            reveal_strlit("MiB");
        }
        assert(d + seq!['.', '0'] + seq![' '] + seq!['M', 'i', 'B'] =~= d + seq![
            '.',
            '0',
            ' ',
            'M',
            'i',
            'B',
        ]);
    } else if bytes == n * 0x4000_0000 {
        lemma_shown_in(n, 3, bytes);
        assert("GiB"@ =~= seq!['G', 'i', 'B']) by {
            reveal_strlit("GiB");
        }
        assert(d + seq!['.', '0'] + seq![' '] + seq!['G', 'i', 'B'] =~= d + seq![
            '.',
            '0',
            ' ',
            'G',
            'i',
            'B',
        ]);
    } else if bytes == n * 0x100_0000_0000 {
        lemma_shown_in(n, 4, bytes);
        assert("TiB"@ =~= seq!['T', 'i', 'B']) by {
            reveal_strlit("TiB");
        }
        assert(d + seq!['.', '0'] + seq![' '] + seq!['T', 'i', 'B'] =~= d + seq![
            '.',
            '0',
            ' ',
            'T',
            'i',
            'B',
        ]);
    }
}

/// A byte fraction shows what was examined, a slash and the total.
pub proof fn law_fraction_reads(examined: u64, total: u64)
    ensures
        total == 0 ==> fraction_text(examined, total).len() == 0,
        total > 0 ==> fraction_text(examined, total) == bytes_text(examined) + " / "@ + bytes_text(
            total,
        ),
{
    reveal_strlit(" / ");
    assert(" / "@ =~= seq![' ', '/', ' ']);
}

proof fn lemma_percent_ascii(r: Binary64)
    requires
        r.bits <= ONE,
    ensures
        byte_len(percent_text(Some(r))) == percent_text(Some(r)).len(),
{
    lemma_percent(r);
    let x = product(r, of_int(100));
    let t = tenths(x);
    let s = percent_text(Some(r));
    assert(Seq::<char>::empty() + tenths_text(t) == tenths_text(t));
    assert(s == tenths_text(t).push('%'));
    lemma_decimal(t / 10);
    let d = decimal(t / 10);
    assert forall|i: int| 0 <= i < s.len() implies (#[trigger] s[i] as u32) < 128 by {
        if i < d.len() {
            assert(s[i] == d[i]);
            assert(digit_value(d[i]) < 10);
        } else if i == d.len() {
            assert(s[i] == '.');
        } else if i == d.len() + 1 {
            assert(s[i] == digit_char(t % 10));
        } else {
            assert(s[i] == '%');
        }
    }
    lemma_ascii_bytes(s);
}

/// A gauge is hashes, then hyphens, then the percentage in brackets. It is as wide
/// as asked for, less one, where there is room for more than four cells, and has
/// four cells otherwise.
pub proof fn law_gauge_reads(r: Binary64, width: nat)
    requires
        r.bits <= ONE,
        width <= 0x20_0000_0000_0000,
    ensures
        ({
            let label = percent_text(Some(r));
            let body = if width > label.len() + 7 {
                (width - label.len() - 3) as nat
            } else {
                4
            };
            let filled = gauge_filled(r, body);
            let g = gauge_text(Some(r), width);
            &&& filled <= body
            &&& g.len() == body + 2 + label.len()
            &&& forall|i: int| 0 <= i < filled ==> #[trigger] g[i] == '#'
            &&& forall|i: int| filled <= i < body ==> #[trigger] g[i] == '-'
            &&& g[body as int] == '['
            &&& g.subrange(body as int + 1, body as int + 1 + label.len()) == label
            &&& g.last() == ']'
            &&& gauge_text(None, width).len() == 0
        }),
{
    lemma_percent(r);
    lemma_percent_ascii(r);
    let label = percent_text(Some(r));
    let body = gauge_body(label, width);
    lemma_gauge_fits(r, body);
    let g = gauge_text(Some(r), width);
    assert(g.subrange(body as int + 1, body as int + 1 + label.len()) =~= label);
}

/// A ratio out of range is shown as the nearer end of the range.
pub proof fn law_percentage_is_held(r: Binary64)
    ensures
        ONE < r.bits <= INFINITY ==> percent_text(Some(r)) == percent_text(Some(one())),
        r.negative() && !r.is_nan() && !r.is_zero() ==> percent_text(Some(r)) == percent_text(
            Some(zero()),
        ),
{
    lemma_percent(one());
    lemma_percent(zero());
    if r.bits < INFINITY {
        lemma_bits_order(one(), r);
    }
}

proof fn lemma_tail(a: Seq<char>, t: Seq<char>)
    ensures
        tail_of_bytes(a + t, byte_len(t)) == Some(t),
    decreases t.len(),
{
    let s = a + t;
    if t.len() > 0 {
        let d = t.drop_last();
        lemma_tail(a, d);
        assert(s.drop_last() == a + d);
        assert(s.last() == t.last());
        assert(d.push(t.last()) == t);
    } else {
        assert(Seq::<char>::empty() =~= t);
    }
}

/// A name that does not fit is shortened to its end, of as many bytes as are left
/// behind the ellipsis, where no character stands across the cut.
pub proof fn law_names_are_shortened_by_bytes(a: Seq<char>, t: Seq<char>)
    ensures
        byte_len(a + t) > byte_len(t) + 1 ==> short_name(a + t, byte_len(t) + 1) == Some(
            seq!['…'] + t,
        ),
        byte_len(a + t) <= byte_len(t) + 1 ==> short_name(a + t, byte_len(t) + 1) == Some(a + t),
{
    lemma_tail(a, t);
}

} // verus!
