//! Sizes, counters and rebuilds, as `zpool status -v` words them, are read.

use crate::binary64::{of_int, product, rounded, truncated, HIDDEN};
use crate::collect::printed::is_section;
use crate::collect::status::{
    counter_token, counter_values, first_complete, leading_size, lowered, progress_pct,
    rebuild_active, rebuild_bytes, rebuild_canceled, rebuild_complete, rebuild_errors,
    rebuild_found, row_counters, scan_bytes, status_line, RebuildProbe, StatusText,
};
use crate::collect::wording::{begins, shows};
use crate::decimal::{lower, parse_float};
use crate::figures::{law_products_are_exact, law_whole_numbers_are_read};
use crate::model::ScanState;
use crate::number::{
    all_digits, decimal, digit_value, law_written_numbers_read_back, lemma_decimal, parse_u64,
    strip_plus,
};
use crate::rounding::lemma_exact_int;
use crate::text::{digit_or_point, lemma_prefix_len_is, occurs_at, trim};
use crate::writing::{
    blanks, graphic, holds, is_blank, law_first_piece_is_found, law_pieces_are_found,
    law_trimming_takes_blanks_only, lemma_blank_prefix, lemma_blank_suffix,
};
use vstd::prelude::*;

verus! {

/// What the letter of a unit is worth in a size, which is printed in powers of ten.
pub open spec fn worth(u: char) -> nat {
    match u {
        'K' | 'k' => 1_000,
        'M' | 'm' => 1_000_000,
        'G' | 'g' => 1_000_000_000,
        'T' | 't' => 1_000_000_000_000,
        _ => 1,
    }
}

/// What the letter of a unit is worth in a counter, which is abbreviated in powers
/// of two; zero for what is no unit.
pub open spec fn weight(u: char) -> nat {
    match u {
        'K' | 'k' => 0x400,
        'M' | 'm' => 0x10_0000,
        'G' | 'g' => 0x4000_0000,
        'T' | 't' => 0x100_0000_0000,
        'P' | 'p' => 0x4_0000_0000_0000,
        _ => 0,
    }
}

/// A size is the number in front times what the letter behind it is worth, with any
/// blanks between the two.
pub proof fn law_size_is_read(num: Seq<char>, gap: Seq<char>, u: char, rest: Seq<char>)
    requires
        forall|i: int|
            0 <= i < num.len() ==> ('0' <= #[trigger] num[i] && num[i] <= '9') || num[i] == '.',
        blanks(gap),
        graphic(u),
        gap.len() == 0 ==> !('0' <= u && u <= '9') && u != '.',
    ensures
        leading_size(num + gap + seq![u] + rest) == (match parse_float(num) {
            Some(v) => Some(truncated(product(v, of_int(worth(u))))),
            None => None::<u64>,
        }),
{
    let s = num + gap + seq![u] + rest;
    assert forall|i: int| 0 <= i < num.len() implies digit_or_point()(#[trigger] s[i]) by {
        assert(s[i] == num[i]);
    }
    let n = num.len() as int;
    if gap.len() > 0 {
        assert(s[n] == gap[0]);
        assert(is_blank(gap[0]));
    } else {
        assert(s[n] == u);
    }
    lemma_prefix_len_is(s, digit_or_point(), num.len());
    assert(s.take(n) == num);
    let tail = seq![u] + rest;
    assert(s.skip(n) == gap + tail);
    assert(tail[0] == u);
    lemma_blank_prefix(gap, tail);
}

/// A whole number of a unit is that many times what the unit is worth.
pub proof fn law_whole_size_is_read(n: nat, gap: Seq<char>, u: char, rest: Seq<char>)
    requires
        n < 2 * HIDDEN,
        n * worth(u) <= 2 * HIDDEN,
        blanks(gap),
        graphic(u),
        gap.len() == 0 ==> !('0' <= u && u <= '9') && u != '.',
    ensures
        leading_size(decimal(n) + gap + seq![u] + rest) == Some((n * worth(u)) as u64),
{
    let num = decimal(n);
    lemma_decimal(n);
    assert forall|i: int| 0 <= i < num.len() implies ('0' <= #[trigger] num[i] && num[i] <= '9')
        || num[i] == '.' by {
        assert(digit_value(num[i]) < 10);
    }
    law_size_is_read(num, gap, u, rest);
    law_whole_numbers_are_read(n);
    law_products_are_exact(n, worth(u));
    lemma_exact_int(n * worth(u));
}

/// A number with nothing behind it is a size in bytes.
pub proof fn law_bare_size_is_read(n: nat)
    requires
        n < 2 * HIDDEN,
    ensures
        leading_size(decimal(n)) == Some(n as u64),
{
    let num = decimal(n);
    lemma_decimal(n);
    assert forall|i: int| 0 <= i < num.len() implies digit_or_point()(#[trigger] num[i]) by {
        assert(digit_value(num[i]) < 10);
    }
    lemma_prefix_len_is(num, digit_or_point(), num.len());
    let none = Seq::<char>::empty();
    assert(num.take(num.len() as int) == num);
    assert(num.skip(num.len() as int) =~= none);
    lemma_blank_prefix(none, none);
    assert(none + none == none);
    law_whole_numbers_are_read(n);
    law_products_are_exact(n, 1);
    lemma_exact_int(n);
}

/// What does not start with a digit or a point is no size.
pub proof fn law_no_size_is_made_up(s: Seq<char>)
    requires
        s.len() > 0 ==> !('0' <= s[0] && s[0] <= '9') && s[0] != '.',
    ensures
        leading_size(s) is None,
{
    lemma_prefix_len_is(s, digit_or_point(), 0);
    let none = s.take(0);
    assert(none.len() == 0);
    lemma_prefix_len_is(none, crate::text::digit(), 0);
    assert(crate::decimal::whole_part(none).len() == 0);
    assert(crate::decimal::after_whole(none).len() == 0);
    assert(crate::decimal::fraction_part(none).len() == 0);
}

/// A counter is a plain number, or a number with the letter of a unit directly
/// behind it, and nothing else that ends like neither.
pub proof fn law_counters_are_read(n: u64, u: char)
    requires
        n < 2 * HIDDEN,
        n * weight(u) <= 2 * HIDDEN,
    ensures
        counter_token(decimal(n as nat)) == Some(n),
        weight(u) > 0 ==> counter_token(decimal(n as nat).push(u)) == Some(
            (n * weight(u)) as u64,
        ),
        weight(u) == 0 && !('0' <= u && u <= '9') ==> counter_token(
            decimal(n as nat).push(u),
        ) is None,
{
    law_written_numbers_read_back(n);
    let d = decimal(n as nat);
    lemma_decimal(n as nat);
    let t = d.push(u);
    assert(t.drop_last() == d);
    if !('0' <= u && u <= '9') {
        assert(digit_value(d[0]) < 10);
        assert(t[0] == d[0]);
        assert(strip_plus(t) == t);
        assert(digit_value(t[t.len() - 1]) >= 10);
        assert(!all_digits(t, 10));
        assert(parse_u64(t) is None);
        law_whole_numbers_are_read(n as nat);
        if weight(u) > 0 {
            law_products_are_exact(n as nat, weight(u));
            lemma_exact_int((n * weight(u)) as nat);
        }
    }
}

/// An abbreviated counter is the number times what its unit is worth, to the nearest
/// integer.
pub proof fn law_abbreviated_counters_are_read(num: Seq<char>, u: char)
    requires
        weight(u) > 0,
    ensures
        counter_token(num.push(u)) == (match parse_float(num) {
            Some(v) => Some(rounded(product(v, of_int(weight(u))))),
            None => None::<u64>,
        }),
{
    let t = num.push(u);
    assert(t.drop_last() == num);
    let s = strip_plus(t);
    if s.len() > 0 && all_digits(s, 10) {
        assert(s.last() == u);
        assert(digit_value(s[s.len() - 1]) < 10);
    }
}

/// The three counters of a row are its last three, in the order read, write and
/// checksum; a row without three has zeros.
pub proof fn law_last_three_counters_count(
    before: Seq<Seq<char>>,
    r: Seq<char>,
    w: Seq<char>,
    c: Seq<char>,
)
    requires
        counter_token(r) is Some,
        counter_token(w) is Some,
        counter_token(c) is Some,
    ensures
        row_counters(before + seq![r, w, c]) == (
            counter_token(r)->Some_0,
            counter_token(w)->Some_0,
            counter_token(c)->Some_0,
        ),
        row_counters(seq![r, w]) == (0u64, 0u64, 0u64),
        row_counters(seq![r]) == (0u64, 0u64, 0u64),
        row_counters(Seq::empty()) == (0u64, 0u64, 0u64),
{
    let x = counter_token(r)->Some_0;
    let y = counter_token(w)->Some_0;
    let z = counter_token(c)->Some_0;
    let none = Seq::<Seq<char>>::empty();
    lemma_counter_behind(before, r, x);
    lemma_counter_behind(before.push(r), w, y);
    lemma_counter_behind(before.push(r).push(w), c, z);
    lemma_counter_behind(none, r, x);
    lemma_counter_behind(none.push(r), w, y);
    lemma_last_three(before, r, w, c, x, y, z);
    lemma_too_few(r, w, x, y);
}

proof fn lemma_last_three(
    before: Seq<Seq<char>>,
    r: Seq<char>,
    w: Seq<char>,
    c: Seq<char>,
    x: u64,
    y: u64,
    z: u64,
)
    requires
        counter_values(before.push(r).push(w).push(c)) == counter_values(before).push(x).push(
            y,
        ).push(z),
    ensures
        row_counters(before + seq![r, w, c]) == (x, y, z),
{
    assert(before + seq![r, w, c] =~= before.push(r).push(w).push(c));
}

proof fn lemma_too_few(r: Seq<char>, w: Seq<char>, x: u64, y: u64)
    requires
        ({
            let none = Seq::<Seq<char>>::empty();
            &&& counter_values(none.push(r)) == counter_values(none).push(x)
            &&& counter_values(none.push(r).push(w)) == counter_values(none).push(x).push(y)
        }),
    ensures
        row_counters(seq![r, w]) == (0u64, 0u64, 0u64),
        row_counters(seq![r]) == (0u64, 0u64, 0u64),
        row_counters(Seq::empty()) == (0u64, 0u64, 0u64),
{
    let none = Seq::<Seq<char>>::empty();
    assert(counter_values(none).len() == 0);
    assert(seq![r] =~= none.push(r));
    assert(seq![r, w] =~= none.push(r).push(w));
}

proof fn lemma_counter_behind(ts: Seq<Seq<char>>, t: Seq<char>, v: u64)
    requires
        counter_token(t) == Some(v),
    ensures
        counter_values(ts.push(t)) == counter_values(ts).push(v),
{
    assert(ts.push(t).drop_last() == ts);
    assert(ts.push(t).last() == t);
}

/// A text with the capital letters of ASCII made small.
pub open spec fn small(s: Seq<char>) -> Seq<char> {
    Seq::new(
        s.len(),
        |i: int|
            if 'A' <= s[i] && s[i] <= 'Z' {
                (s[i] as u32 + 32) as char
            } else {
                s[i]
            },
    )
}

proof fn lemma_small(s: Seq<char>)
    ensures
        lowered(s) == small(s),
{
    assert forall|i: int| 0 <= i < s.len() implies lowered(s)[i] == small(s)[i] by {
        assert(lower(s[i]) == small(s)[i]);
    }
}

/// The size of a scan stands behind `resilvered`, otherwise behind `repaired`,
/// otherwise behind `scanned`, in capital or small letters; without any of these
/// there is none.
pub proof fn law_scan_size_is_found(a: Seq<char>, w: Seq<char>, b: Seq<char>)
    ensures
        ({
            let t = a + w + b;
            let first = |p: Seq<char>| small(w) == p && !holds((small(a) + p).drop_last(), p);
            let no = |p: Seq<char>| !holds(small(t), p);
            &&& first("resilvered "@) ==> scan_bytes(t) == leading_size(b)
            &&& first("repaired "@) && no("resilvered "@) ==> scan_bytes(t) == leading_size(b)
            &&& first("scanned "@) && no("resilvered "@) && no("repaired "@) ==> scan_bytes(t)
                == leading_size(b)
            &&& no("resilvered "@) && no("repaired "@) && no("scanned "@) ==> scan_bytes(
                t,
            ) is None
        }),
{
    let t = a + w + b;
    lemma_small(t);
    let l = lowered(t);
    assert(l =~= small(a) + small(w) + small(b));
    reveal_strlit("resilvered ");
    reveal_strlit("repaired ");
    reveal_strlit("scanned ");
    assert("resilvered "@.len() == 11 && "repaired "@.len() == 9 && "scanned "@.len() == 8);
    law_pieces_are_found(l, "resilvered "@);
    law_pieces_are_found(l, "repaired "@);
    law_pieces_are_found(l, "scanned "@);
    assert(small(w).len() == w.len() && small(a).len() == a.len());
    assert(t.skip((a.len() + w.len()) as int) == b);
    if small(w) == "resilvered "@ && !holds(
        (small(a) + "resilvered "@).drop_last(),
        "resilvered "@,
    ) {
        law_first_piece_is_found(small(a), "resilvered "@, small(b));
    }
    if small(w) == "repaired "@ && !holds((small(a) + "repaired "@).drop_last(), "repaired "@) {
        law_first_piece_is_found(small(a), "repaired "@, small(b));
    }
    if small(w) == "scanned "@ && !holds((small(a) + "scanned "@).drop_last(), "scanned "@) {
        law_first_piece_is_found(small(a), "scanned "@, small(b));
    }
}

/// Which rebuild a line with the text `t` words: one that is running, one that is
/// complete or one that was canceled.
pub proof fn law_rebuild_wordings(l: Seq<char>, t: Seq<char>)
    requires
        shows(l, t),
    ensures
        rebuild_active(l) <==> begins(t, "resilver ("@) && holds(t, "in progress"@),
        rebuild_complete(l) <==> begins(t, "resilvered ("@),
        rebuild_canceled(l) <==> begins(t, "resilver ("@) && holds(t, "canceled"@),
{
    let (m, e) = choose|m: Seq<char>, e: Seq<char>|
        blanks(m) && blanks(e) && l == #[trigger] (m + t + e);
    law_trimming_takes_blanks_only(m, t, e);
    law_pieces_are_found(t, "resilver ("@);
    law_pieces_are_found(t, "resilvered ("@);
    law_pieces_are_found(t, "in progress"@);
    law_pieces_are_found(t, "canceled"@);
}

proof fn lemma_first_complete_at(ls: Seq<Seq<char>>, k: int)
    requires
        0 <= k < ls.len(),
        rebuild_complete(ls[k]),
        forall|j: int| 0 <= j < k ==> !rebuild_complete(#[trigger] ls[j]),
    ensures
        first_complete(ls) == Some(trim(ls[k])),
    decreases k,
{
    if k > 0 {
        assert(!rebuild_complete(ls[0]));
        let r = ls.skip(1);
        assert(r[k - 1] == ls[k]);
        assert forall|j: int| 0 <= j < k - 1 implies !rebuild_complete(#[trigger] r[j]) by {
            assert(r[j] == ls[j + 1]);
        }
        lemma_first_complete_at(r, k - 1);
    }
}

proof fn lemma_none_complete(ls: Seq<Seq<char>>)
    requires
        forall|j: int| 0 <= j < ls.len() ==> !rebuild_complete(#[trigger] ls[j]),
    ensures
        first_complete(ls) is None,
    decreases ls.len(),
{
    if ls.len() > 0 {
        let r = ls.skip(1);
        assert forall|j: int| 0 <= j < r.len() implies !rebuild_complete(#[trigger] r[j]) by {
            assert(r[j] == ls[j + 1]);
        }
        lemma_none_complete(r);
    }
}

/// A running rebuild on any line is reported as running. Without one, the first
/// complete one is reported with its size and its errors; without that, a canceled
/// one; and nothing where no line words a rebuild.
pub proof fn law_rebuild_is_found(ls: Seq<Seq<char>>, ts: Seq<Seq<char>>, k: int)
    requires
        ls.len() == ts.len(),
        forall|i: int| 0 <= i < ls.len() ==> shows(#[trigger] ls[i], ts[i]),
    ensures
        ({
            let active = exists|i: int|
                0 <= i < ts.len() && begins(#[trigger] ts[i], "resilver ("@) && holds(
                    ts[i],
                    "in progress"@,
                );
            let canceled = exists|i: int|
                0 <= i < ts.len() && begins(#[trigger] ts[i], "resilver ("@) && holds(
                    ts[i],
                    "canceled"@,
                );
            let first = 0 <= k < ts.len() && begins(ts[k], "resilvered ("@) && forall|j: int|
                0 <= j < k ==> !begins(#[trigger] ts[j], "resilvered ("@);
            let complete = exists|i: int|
                0 <= i < ts.len() && begins(#[trigger] ts[i], "resilvered ("@);
            &&& active ==> rebuild_found(ls) == Some(
                RebuildProbe { state: ScanState::Scanning, bytes: None, errors: None },
            )
            &&& !active && first ==> rebuild_found(ls) == Some(
                RebuildProbe {
                    state: ScanState::Finished,
                    bytes: rebuild_bytes(ts[k]),
                    errors: rebuild_errors(ts[k]),
                },
            )
            &&& !active && !complete && canceled ==> rebuild_found(ls) == Some(
                RebuildProbe { state: ScanState::Canceled, bytes: None, errors: None },
            )
            &&& !active && !complete && !canceled ==> rebuild_found(ls) is None
        }),
{
    assert forall|i: int| 0 <= i < ls.len() implies {
        &&& rebuild_active(#[trigger] ls[i]) <==> begins(ts[i], "resilver ("@) && holds(
            ts[i],
            "in progress"@,
        )
        &&& rebuild_complete(ls[i]) <==> begins(ts[i], "resilvered ("@)
        &&& rebuild_canceled(ls[i]) <==> begins(ts[i], "resilver ("@) && holds(
            ts[i],
            "canceled"@,
        )
    } by {
        assert(shows(ls[i], ts[i]));
        law_rebuild_wordings(ls[i], ts[i]);
    }
    if exists|i: int| 0 <= i < ls.len() && rebuild_active(#[trigger] ls[i]) {
        let i = choose|i: int| 0 <= i < ls.len() && rebuild_active(#[trigger] ls[i]);
        assert(begins(ts[i], "resilver ("@));
    }
    if exists|i: int|
        0 <= i < ts.len() && begins(#[trigger] ts[i], "resilver ("@) && holds(
            ts[i],
            "in progress"@,
        ) {
        let i = choose|i: int|
            0 <= i < ts.len() && begins(#[trigger] ts[i], "resilver ("@) && holds(
                ts[i],
                "in progress"@,
            );
        assert(rebuild_active(ls[i]));
    }
    if exists|i: int| 0 <= i < ls.len() && rebuild_canceled(#[trigger] ls[i]) {
        let i = choose|i: int| 0 <= i < ls.len() && rebuild_canceled(#[trigger] ls[i]);
        assert(begins(ts[i], "resilver ("@));
    }
    if exists|i: int|
        0 <= i < ts.len() && begins(#[trigger] ts[i], "resilver ("@) && holds(
            ts[i],
            "canceled"@,
        ) {
        let i = choose|i: int|
            0 <= i < ts.len() && begins(#[trigger] ts[i], "resilver ("@) && holds(
                ts[i],
                "canceled"@,
            );
        assert(rebuild_canceled(ls[i]));
    }
    if 0 <= k < ts.len() && begins(ts[k], "resilvered ("@) && forall|j: int|
        0 <= j < k ==> !begins(#[trigger] ts[j], "resilvered ("@) {
        assert(rebuild_complete(ls[k]));
        assert forall|j: int| 0 <= j < k implies !rebuild_complete(#[trigger] ls[j]) by {
            assert(!begins(ts[j], "resilvered ("@));
        }
        lemma_first_complete_at(ls, k);
        assert(shows(ls[k], ts[k]));
        lemma_text_of(ls[k], ts[k]);
    }
    if !(exists|i: int| 0 <= i < ts.len() && begins(#[trigger] ts[i], "resilvered ("@)) {
        assert forall|j: int| 0 <= j < ls.len() implies !rebuild_complete(#[trigger] ls[j]) by {
            assert(!begins(ts[j], "resilvered ("@));
        }
        lemma_none_complete(ls);
    }
}

proof fn lemma_text_of(l: Seq<char>, t: Seq<char>)
    requires
        shows(l, t),
    ensures
        trim(l) == t,
{
    let (m, e) = choose|m: Seq<char>, e: Seq<char>|
        blanks(m) && blanks(e) && l == #[trigger] (m + t + e);
    law_trimming_takes_blanks_only(m, t, e);
}

/// The size of a complete rebuild stands behind the name in brackets.
pub proof fn law_rebuild_size_is_found(name: Seq<char>, gap: Seq<char>, b: Seq<char>)
    requires
        forall|i: int| 0 <= i < name.len() ==> #[trigger] name[i] != ')',
        blanks(gap),
        b.len() > 0 ==> graphic(b[0]),
    ensures
        rebuild_bytes("resilvered ("@ + name + seq![')'] + gap + b) == leading_size(b),
{
    reveal_strlit("resilvered (");
    reveal_strlit(")");
    assert(")"@ =~= seq![')']);
    let a = "resilvered ("@ + name;
    let p = ")"@;
    let t = a + p + (gap + b);
    assert("resilvered ("@ + name + seq![')'] + gap + b =~= t);
    assert forall|j: int| 0 <= j < a.len() implies !occurs_at(t, p, j) by {
        if occurs_at(t, p, j) {
            assert(t.subrange(j, j + 1)[0] == t[j]);
            assert(t[j] == a[j]);
            if j >= 12 {
                assert(a[j] == name[j - 12]);
            }
        }
    }
    assert(t.subrange(a.len() as int, a.len() as int + 1) =~= p);
    crate::text::lemma_find_is(t, p, a.len() as int);
    assert(t.skip(a.len() as int + 1) == gap + b);
    lemma_blank_prefix(gap, b);
}

/// The progress of a status text: a `scan:` line sets it where it shows one, and any
/// other line of the table shows it only where none was seen before.
pub proof fn law_progress_of_a_line(st: StatusText, l: Seq<char>)
    requires
        l.len() > 0,
        graphic(l[0]),
        graphic(l.last()),
        !st.in_errors,
    ensures
        begins(l, "scan:"@) || holds(l, " scan:"@) ==> status_line(st, l) == (StatusText {
            progress: if progress_pct(l) is Some {
                progress_pct(l)
            } else {
                st.progress
            },
            ..st
        }),
        !is_section(l) && st.progress is Some ==> status_line(st, l).progress == st.progress,
        !is_section(l) && st.progress is None ==> status_line(st, l).progress == progress_pct(l),
{
    let none = Seq::<char>::empty();
    assert(l + none == l);
    assert(none + l == l);
    lemma_blank_suffix(l, none);
    lemma_blank_prefix(none, l);
    law_pieces_are_found(l, "scan:"@);
    law_pieces_are_found(l, " scan:"@);
    law_pieces_are_found(l, "errors:"@);
}

/// A `% done` without a number in front of it is no percentage.
pub proof fn law_percentage_needs_a_number(a: Seq<char>, b: Seq<char>)
    requires
        a.len() > 0 ==> !('0' <= a.last() && a.last() <= '9') && a.last() != '.',
        !holds((a + "% done"@).drop_last(), "% done"@),
    ensures
        progress_pct(a + "% done"@ + b) is None,
{
    reveal_strlit("% done");
    law_first_piece_is_found(a, "% done"@, b);
    let s = a + "% done"@ + b;
    assert(s.take(a.len() as int) == a);
    crate::text::lemma_suffix_len_is(a, digit_or_point(), 0);
}

} // verus!
