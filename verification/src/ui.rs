//! Pure rendering helpers: plain functions from data to texts and colors.

use crate::binary64::{
    clamp_unit, lemma_bits_order, lemma_clamp_unit, lemma_nearest_zero, lemma_of_int, lemma_of_zero,
    lt, of_int, one, product, quotient, rounded, zero, Binary64,
};
use crate::decimal::{fixed_text, push_fixed};
use crate::model::{
    at_least, faulted_node, law_recovered_pool_is_healthy, retry_needed, some_node,
    tree_has_faulted, wants_retry, PoolHealth, PoolSnapshot, PoolView,
};
use crate::number::{decimal, push_decimal};
use crate::rounding::{
    lemma_exact_int, lemma_integer_mono, lemma_product_commutes, lemma_product_mono, lemma_share,
    lemma_times_one, lemma_unit_bits,
};
use crate::style::{cells, in_bold, in_color, plain, Cell, CellView, Color, Style};
use crate::text::{byte_len, byte_len_of, chars, push_repeat, repeat};
use vstd::prelude::*;

pub use crate::surface::{
    device_heat_list, device_heat_row, device_heat_row_sized, heat_cell_color, heat_char,
    heat_legend, surface_grid, surface_lines, DeviceHeat,
};

verus! {

/// Body panel indices: the focus targets of the keys `h` and `l`.
pub const PANEL_TREE: usize = 0;

pub const PANEL_MAP: usize = 1;

/// Title style for a body panel: the focused panel gets the same idiom as the
/// active pool tab, the unfocused one stays plain.
#[must_use]
pub fn panel_title_style(panel_focus: usize, panel: usize) -> (s: Style)
    ensures
        s == title_style(panel_focus, panel),
{
    if panel_focus == panel {
        Style::in_bold(Color::Cyan)
    } else {
        Style::plain()
    }
}

/// The title style of a panel.
pub open spec fn title_style(panel_focus: usize, panel: usize) -> Style {
    if panel_focus == panel {
        in_bold(Color::Cyan)
    } else {
        plain()
    }
}

/// Border accent for a body panel: cyan on the focused panel, plain otherwise.
/// Color only: a bold border would over-emphasize next to the title.
#[must_use]
pub fn panel_border_style(panel_focus: usize, panel: usize) -> (s: Style)
    ensures
        s == border_style(panel_focus, panel),
{
    if panel_focus == panel {
        Style::in_color(Color::Cyan)
    } else {
        Style::plain()
    }
}

/// The border style of a panel.
pub open spec fn border_style(panel_focus: usize, panel: usize) -> Style {
    if panel_focus == panel {
        in_color(Color::Cyan)
    } else {
        plain()
    }
}

/// The marker of a grade.
pub open spec fn health_marker(health: PoolHealth) -> Seq<char> {
    match health {
        PoolHealth::Fault => "✚"@,
        PoolHealth::Degraded => "!"@,
        PoolHealth::Healthy => ""@,
    }
}

/// Health marker glyph for one pool tab: `✚` for a fault, `!` for degraded,
/// empty for healthy. It survives where colors do not.
#[must_use]
pub fn pool_health_marker(health: PoolHealth) -> (r: &'static str)
    ensures
        r@ == health_marker(health),
{
    match health {
        PoolHealth::Fault => "✚",
        PoolHealth::Degraded => "!",
        PoolHealth::Healthy => "",
    }
}

/// The markers of a tab.
pub open spec fn markers(health: PoolHealth, scanning: bool) -> Seq<char> {
    if scanning {
        health_marker(health).push('⟳')
    } else {
        health_marker(health)
    }
}

/// Combined tab markers for one pool: the health glyph first, then `⟳` while
/// scanning.
#[must_use]
pub fn tab_markers(health: PoolHealth, scanning: bool) -> (r: String)
    ensures
        r@ == markers(health, scanning),
{
    let mut m = pool_health_marker(health).to_owned();
    if scanning {
        m.push('⟳');
    }
    m
}

/// The style of a tab.
pub open spec fn tab_look(health: PoolHealth, scanning: bool, active: bool) -> Style {
    if active {
        in_bold(Color::Cyan)
    } else {
        match health {
            PoolHealth::Fault => in_color(Color::Red),
            PoolHealth::Degraded => in_color(Color::Yellow),
            PoolHealth::Healthy => if scanning {
                in_color(Color::Yellow)
            } else {
                in_color(Color::DarkGray)
            },
        }
    }
}

/// Style for one pool tab.
///
/// * The active tab is cyan and bold, always: there the marker glyph carries
///   the fault.
/// * On inactive tabs the health color wins over the scanning color.
#[must_use]
pub fn tab_style(health: PoolHealth, scanning: bool, active: bool) -> (s: Style)
    ensures
        s == tab_look(health, scanning, active),
{
    if active {
        return Style::in_bold(Color::Cyan);
    }
    match health {
        PoolHealth::Fault => Style::in_color(Color::Red),
        PoolHealth::Degraded => Style::in_color(Color::Yellow),
        PoolHealth::Healthy => {
            if scanning {
                Style::in_color(Color::Yellow)
            } else {
                Style::in_color(Color::DarkGray)
            }
        },
    }
}

/// The percentage that a ratio stands for, with one digit behind the point.
pub open spec fn percent_text(ratio: Option<Binary64>) -> Seq<char> {
    match ratio {
        None => Seq::empty(),
        Some(r) => fixed_text(product(clamp_unit(r), of_int(100))).push('%'),
    }
}

/// Progress label: `"37.5%"`, or nothing when not computable.
#[must_use]
pub fn progress_label(ratio: Option<Binary64>) -> (r: String)
    ensures
        r@ == percent_text(ratio),
{
    let mut out = String::new();
    if let Some(r) = ratio {
        push_fixed(&mut out, r.clamped().times(Binary64::from_u64(100)));
        out.push('%');
        assert(out@ == percent_text(ratio));
    }
    out
}

/// How many cells the body of a gauge has: what the label and its brackets
/// leave of the width, and four at least.
pub open spec fn gauge_body(label: Seq<char>, width: nat) -> nat {
    if width > byte_len(label) + 3 + 4 {
        (width - byte_len(label) - 3) as nat
    } else {
        4
    }
}

/// How many cells of a gauge are filled.
pub open spec fn gauge_filled(ratio: Binary64, body: nat) -> nat {
    rounded(product(of_int(body), ratio)) as nat
}

/// The text of a gauge.
pub open spec fn gauge_text(ratio: Option<Binary64>, width: nat) -> Seq<char> {
    match ratio {
        None => Seq::empty(),
        Some(r) => {
            let x = clamp_unit(r);
            let label = percent_text(Some(x));
            let body = gauge_body(label, width);
            let filled = gauge_filled(x, body);
            repeat('#', filled) + repeat('-', (body - filled) as nat) + seq!['['] + label + seq![
                ']',
            ]
        },
    }
}

/// Gauge in the style of an RPM installation: `##############------[45.0%]`.
///
/// A hash is done, a hyphen is left. Unknown progress is nothing at all.
#[must_use]
pub fn rpm_gauge(ratio: Option<Binary64>, width: usize) -> (r: String)
    requires
        width <= 0x20_0000_0000_0000,
    ensures
        r@ == gauge_text(ratio, width as nat),
{
    let mut out = String::new();
    if let Some(given) = ratio {
        let x = given.clamped();
        let label = progress_label(Some(x));
        let letters: Vec<char> = chars(label.as_str());
        let used: u128 = byte_len_of(letters.as_slice()) + 3;
        let body: usize = if width as u128 > used + 4 {
            (width as u128 - used) as usize
        } else {
            4
        };
        let share = Binary64::from_u64(body as u64).times(x);
        let filled: usize = share.round_off() as usize;
        proof {
            lemma_gauge_fits(given, body as nat);
            assert(body == gauge_body(label@, width as nat));
        }
        push_repeat(&mut out, '#', filled);
        push_repeat(&mut out, '-', body - filled);
        out.push('[');
        out.append(label.as_str());
        out.push(']');
        assert(out@ == gauge_text(ratio, width as nat));
    }
    out
}

/// A gauge is never filled beyond its body, whatever the ratio.
pub proof fn lemma_gauge_fits(ratio: Binary64, body: nat)
    requires
        body <= 0x20_0000_0000_0000,
    ensures
        gauge_filled(clamp_unit(ratio), body) <= body,
{
    lemma_clamp_unit(ratio);
    let x = clamp_unit(ratio);
    if !x.is_nan() {
        lemma_unit_bits(x);
        lemma_share(body, x);
    }
}

/// The units of byte counts, each 1024 times the one before.
pub open spec fn unit_text(unit: nat) -> Seq<char> {
    if unit == 0 {
        "B"@
    } else if unit == 1 {
        "KiB"@
    } else if unit == 2 {
        "MiB"@
    } else if unit == 3 {
        "GiB"@
    } else if unit == 4 {
        "TiB"@
    } else if unit == 5 {
        "PiB"@
    } else {
        "EiB"@
    }
}

/// A number and its unit, in the first unit from `unit` on in which the number
/// is less than 1024.
pub open spec fn in_unit(x: Binary64, unit: nat) -> (Binary64, nat)
    decreases 6 - unit,
{
    if unit >= 6 || lt(x, of_int(1024)) {
        (x, unit)
    } else {
        in_unit(quotient(x, of_int(1024)), unit + 1)
    }
}

/// A byte count: whole bytes below 1024, and one digit behind the point in any
/// greater unit.
pub open spec fn bytes_text(bytes: u64) -> Seq<char> {
    let (value, unit) = in_unit(of_int(bytes as nat), 0);
    (if unit == 0 {
        decimal(bytes as nat)
    } else {
        fixed_text(value)
    }) + seq![' '] + unit_text(unit)
}

/// Byte count formatter (`1.5 MiB` style).
#[must_use]
pub fn fmt_bytes(bytes: u64) -> (r: String)
    ensures
        r@ == bytes_text(bytes),
{
    let kilo = Binary64::from_u64(1024);
    proof {
        lemma_of_int(1024);
    }
    let mut value = Binary64::from_u64(bytes);
    let mut unit: usize = 0;
    while unit < 6 && !value.less(kilo)
        invariant
            unit <= 6,
            kilo == of_int(1024),
            kilo.is_finite(),
            !kilo.is_zero(),
            in_unit(of_int(bytes as nat), 0) == in_unit(value, unit as nat),
        decreases 6 - unit,
    {
        value = value.over(kilo);
        unit += 1;
    }
    let mut out = String::new();
    if unit == 0 {
        push_decimal(&mut out, bytes as u128);
    } else {
        push_fixed(&mut out, value);
    }
    out.push(' ');
    let name = match unit {
        0 => "B",
        1 => "KiB",
        2 => "MiB",
        3 => "GiB",
        4 => "TiB",
        5 => "PiB",
        _ => "EiB",
    };
    out.append(name);
    assert(out@ == bytes_text(bytes));
    out
}

/// The text of a byte fraction.
pub open spec fn fraction_text(examined: u64, total: u64) -> Seq<char> {
    if total == 0 {
        Seq::empty()
    } else {
        bytes_text(examined) + seq![' ', '/', ' '] + bytes_text(total)
    }
}

/// Byte fraction label: `"150.0 MiB / 400.0 MiB"`.
///
/// Empty when the total is zero: unknown values are omitted.
#[must_use]
pub fn bytes_fraction(examined: u64, total: u64) -> (r: String)
    ensures
        r@ == fraction_text(examined, total),
{
    if total == 0 {
        return String::new();
    }
    let mut out = fmt_bytes(examined);
    proof {
        reveal_strlit(" / ");
        assert(" / "@ =~= seq![' ', '/', ' ']);
    }
    out.append(" / ");
    let rest = fmt_bytes(total);
    out.append(rest.as_str());
    out
}

/// The key position of the QWERTY layout that a letter of the Korean two-set
/// layout stands on; any other character stands for itself.
pub open spec fn key_position(c: char) -> char {
    match c {
        'ㅂ' | 'ㅃ' => 'q',
        'ㅈ' | 'ㅉ' => 'w',
        'ㄷ' | 'ㄸ' => 'e',
        'ㄱ' | 'ㄲ' => 'r',
        'ㅅ' | 'ㅆ' => 't',
        'ㅛ' => 'y',
        'ㅕ' => 'u',
        'ㅑ' => 'i',
        'ㅐ' | 'ㅒ' => 'o',
        'ㅔ' | 'ㅖ' => 'p',
        'ㅁ' => 'a',
        'ㄴ' => 's',
        'ㅇ' => 'd',
        'ㄹ' => 'f',
        'ㅎ' => 'g',
        'ㅗ' => 'h',
        'ㅓ' => 'j',
        'ㅏ' => 'k',
        'ㅣ' => 'l',
        'ㅋ' => 'z',
        'ㅌ' => 'x',
        'ㅊ' => 'c',
        'ㅍ' => 'v',
        'ㅠ' => 'b',
        'ㅜ' => 'n',
        'ㅡ' => 'm',
        other => other,
    }
}

/// Projects a letter that a Korean input method delivers back onto its key, so
/// that hotkeys work with the input method on. The projection goes by position,
/// not by sound: `ㅂ` lives on the key `q`.
#[must_use]
pub fn hangul_to_qwerty(c: char) -> (r: char)
    ensures
        r == key_position(c),
{
    match c {
        'ㅂ' | 'ㅃ' => 'q',
        'ㅈ' | 'ㅉ' => 'w',
        'ㄷ' | 'ㄸ' => 'e',
        'ㄱ' | 'ㄲ' => 'r',
        'ㅅ' | 'ㅆ' => 't',
        'ㅛ' => 'y',
        'ㅕ' => 'u',
        'ㅑ' => 'i',
        'ㅐ' | 'ㅒ' => 'o',
        'ㅔ' | 'ㅖ' => 'p',
        'ㅁ' => 'a',
        'ㄴ' => 's',
        'ㅇ' => 'd',
        'ㄹ' => 'f',
        'ㅎ' => 'g',
        'ㅗ' => 'h',
        'ㅓ' => 'j',
        'ㅏ' => 'k',
        'ㅣ' => 'l',
        'ㅋ' => 'z',
        'ㅌ' => 'x',
        'ㅊ' => 'c',
        'ㅍ' => 'v',
        'ㅠ' => 'b',
        'ㅜ' => 'n',
        'ㅡ' => 'm',
        other => other,
    }
}

/// Applies the input method fallback to a key.
#[must_use]
pub fn ime_fallback(c: char) -> (r: char)
    ensures
        r == key_position(c),
{
    hangul_to_qwerty(c)
}

/// ASCII passes through untouched, and whatever is projected becomes a
/// lower-case letter, which a second projection leaves as it is.
pub proof fn law_projection_reaches_keys(c: char)
    ensures
        (c as u32) < 128 ==> key_position(c) == c,
        key_position(c) != c ==> 'a' <= key_position(c) && key_position(c) <= 'z',
        key_position(key_position(c)) == key_position(c),
{
}

/// The badge of a snapshot: retry comes before replacement.
pub open spec fn badge(s: PoolView) -> Option<(Seq<char>, Color)> {
    if wants_retry(s) {
        Some(("⟳ RETRY"@, Color::Yellow))
    } else if some_node(s.root, faulted_node()) {
        Some(("✚ REPLACE"@, Color::Red))
    } else {
        None
    }
}

/// Retry badge: text and color, or none needed.
///
/// It mirrors [`crate::model::retry_needed`], plus the escalation: faulted
/// devices do not ask for a retry, they ask for replacement.
pub fn retry_badge(snapshot: &PoolSnapshot) -> (r: Option<(&'static str, Color)>)
    ensures
        match r {
            Some((text, color)) => badge(snapshot@) == Some((text@, color)),
            None => badge(snapshot@) is None,
        },
{
    if retry_needed(snapshot) {
        return Some(("⟳ RETRY", Color::Yellow));
    }
    if tree_has_faulted(&snapshot.root) {
        return Some(("✚ REPLACE", Color::Red));
    }
    None
}

/// A cell without any color of its own.
pub open spec fn colorless(c: CellView) -> CellView {
    CellView { fg: Color::Reset, bg: Color::Reset, underline_color: Color::Reset, ..c }
}

/// Scrubs every color from a rendered screen, and nothing else: attributes and
/// characters carry meaning of their own.
pub fn strip_colors(buf: &mut Vec<Cell>)
    ensures
        cells(final(buf)@) == Seq::new(
            old(buf)@.len(),
            |i: int| colorless(old(buf)@[i]@),
        ),
{
    let ghost before = buf@;
    let mut i: usize = 0;
    while i < buf.len()
        invariant
            i <= buf@.len(),
            buf@.len() == before.len(),
            forall|k: int| 0 <= k < i ==> (#[trigger] buf@[k])@ == colorless(before[k]@),
            forall|k: int| i <= k < before.len() ==> #[trigger] buf@[k] == before[k],
        decreases before.len() - i,
    {
        buf[i].fg = Color::Reset;
        buf[i].bg = Color::Reset;
        buf[i].underline_color = Color::Reset;
        i += 1;
    }
}

/// Scrubbing colors twice is scrubbing them once.
pub proof fn law_stripping_is_idempotent(c: CellView)
    ensures
        colorless(colorless(c)) == colorless(c),
        colorless(c).symbol == c.symbol,
        colorless(c).modifier == c.modifier,
{
}

/// Whether a value of the environment variable `NO_COLOR` asks for no color:
/// any that is not empty.
pub fn no_color(value: Option<&str>) -> (r: bool)
    ensures
        r == (value matches Some(v) && v@.len() > 0),
{
    match value {
        Some(v) => v.unicode_len() > 0,
        None => false,
    }
}

/// A fault is never masked: neither by a running scan on an inactive tab, nor
/// on the active tab, whose marker shows it whatever its color.
pub proof fn law_fault_is_never_masked(scanning: bool)
    ensures
        tab_look(PoolHealth::Fault, scanning, false) == in_color(Color::Red),
        tab_look(PoolHealth::Fault, scanning, true) == in_bold(Color::Cyan),
        markers(PoolHealth::Fault, scanning).len() > 0,
        markers(PoolHealth::Fault, scanning)[0] == '✚',
        scanning ==> markers(PoolHealth::Fault, scanning) == seq!['✚', '⟳'],
{
    reveal_strlit("✚");
    assert(markers(PoolHealth::Fault, true) =~= seq!['✚', '⟳']);
}

/// A pool whose vdevs are all online or offline, and whose scan has no errors
/// or is finished, has no badge.
pub proof fn law_clean_pool_has_no_badge(s: PoolView)
    requires
        !some_node(s.root, at_least(1)),
        s.scan matches Some(scan) ==> scan.errors == 0 || scan.state is Finished,
    ensures
        badge(s) is None,
{
    law_recovered_pool_is_healthy(s.root);
}

/// Unknown values are omitted: without a ratio there is neither a label nor a
/// gauge, and without a total there is no byte fraction. Known ones are always
/// shown.
pub proof fn law_unknown_is_omitted(ratio: Option<Binary64>, width: nat, examined: u64, total: u64)
    ensures
        percent_text(ratio).len() > 0 <==> ratio is Some,
        gauge_text(ratio, width).len() > 0 <==> ratio is Some,
        fraction_text(examined, total).len() > 0 <==> total > 0,
{
}

/// Byte counts below 1024 are exact.
pub proof fn law_small_counts_are_exact(bytes: u64)
    requires
        bytes < 1024,
    ensures
        bytes_text(bytes) == decimal(bytes as nat) + " B"@,
{
    let x = of_int(bytes as nat);
    let k = of_int(1024);
    lemma_exact_int(bytes as nat);
    lemma_exact_int(1024);
    if k.bits <= x.bits {
        lemma_integer_mono(k, x);
    }
    lemma_bits_order(x, k);
    assert(lt(x, k));
    reveal_strlit(" B");
    reveal_strlit("B");
    assert(seq![' '] + "B"@ =~= " B"@);
}

/// The body of a gauge is empty at the start and full at the end, and no hash in
/// it goes away while the progress grows.
pub proof fn law_gauge_grows_with_progress(a: Binary64, b: Binary64, body: nat)
    requires
        body <= 0x20_0000_0000_0000,
        a.bits <= b.bits <= one().bits,
    ensures
        gauge_filled(a, body) <= gauge_filled(b, body) <= body,
        gauge_filled(zero(), body) == 0,
        gauge_filled(one(), body) == body,
{
    let n = of_int(body);
    lemma_exact_int(body);
    lemma_times_one(n);
    lemma_product_commutes(n, a);
    lemma_product_commutes(n, b);
    lemma_product_mono(a, b, n);
    lemma_integer_mono(product(a, n), product(b, n));
    lemma_share(body, b);
    lemma_exact_int(0);
    lemma_of_zero();
    lemma_nearest_zero(1, n.exponent() + zero().exponent());
    assert(n.mantissa() * 0 == 0);
}

/// The badge follows the retry policy: it asks for a retry exactly where the
/// policy does, for a replacement exactly where a vdev is faulted and no retry
/// helps, and for nothing otherwise.
pub proof fn law_badge_follows_the_policy(s: PoolView)
    ensures
        wants_retry(s) <==> badge(s) == Some(("⟳ RETRY"@, Color::Yellow)),
        !wants_retry(s) && some_node(s.root, faulted_node()) <==> badge(s) == Some(
            ("✚ REPLACE"@, Color::Red),
        ),
        !wants_retry(s) && !some_node(s.root, faulted_node()) <==> badge(s) is None,
{
}

} // verus!
