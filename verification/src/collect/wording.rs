//! What the `scan:` section of `zpool status -v` says is what is read.
//!
//! The laws here put the section together line by line and piece by piece, and say
//! what [`crate::collect::status`] makes of it.


use crate::collect::printed::law_percentage_is_found;
use crate::collect::status::{progress_pct, rebuild_errors, scan_bytes, scan_section, section_text};
use crate::decimal::parse_float;
use crate::model::{ScanFunc, ScanState};
use crate::number::{decimal, law_written_numbers_read_back, lemma_decimal};
use crate::text::{digit, is_space, lemma_prefix_len_is, lines, starts_with, strip_all, trim};
use crate::writing::{
    are_lines, blanks, ended, graphic, holds, is_blank, is_tight, law_first_piece_is_found,
    law_lines_are_found, law_pieces_are_found, law_trimming_takes_blanks_only,
};
use vstd::prelude::*;

verus! {

/// Whether `s` begins with `p`.
pub open spec fn begins(s: Seq<char>, p: Seq<char>) -> bool {
    exists|b: Seq<char>| s == #[trigger] (p + b)
}

/// Whether the line `l` is the text `t` between blanks and tabs.
pub open spec fn shows(l: Seq<char>, t: Seq<char>) -> bool {
    &&& t.len() == 0 || is_tight(t)
    &&& exists|m: Seq<char>, e: Seq<char>| blanks(m) && blanks(e) && l == #[trigger] (m + t + e)
}

/// Whether the line `l`, with the text `t`, goes on with a section: it is blank, or
/// stands to the right.
pub open spec fn continues(l: Seq<char>, t: Seq<char>) -> bool {
    shows(l, t) && (t.len() == 0 || is_blank(l[0])) && !begins(t, "scan:"@)
}

/// Whether the line `l`, with the text `t`, ends a section: it is not blank and
/// stands at the left.
pub open spec fn stops(l: Seq<char>, t: Seq<char>) -> bool {
    shows(l, t) && t.len() > 0 && graphic(l[0]) && !begins(t, "scan:"@)
}

/// Whether the lines `ls`, with the texts `ts`, begin no `scan:` section.
pub open spec fn open_no_section(ls: Seq<Seq<char>>, ts: Seq<Seq<char>>) -> bool {
    &&& ts.len() == ls.len()
    &&& forall|i: int|
        0 <= i < ls.len() ==> shows(#[trigger] ls[i], ts[i]) && !begins(ts[i], "scan:"@)
}

/// Some texts, each behind one blank.
pub open spec fn trailing(ts: Seq<Seq<char>>) -> Seq<char>
    decreases ts.len(),
{
    if ts.len() == 0 {
        Seq::empty()
    } else {
        seq![' '] + ts[0] + trailing(ts.skip(1))
    }
}

proof fn lemma_shown(l: Seq<char>, t: Seq<char>)
    requires
        shows(l, t),
    ensures
        trim(l) == t,
        starts_with(trim(l), "scan:"@) <==> begins(t, "scan:"@),
{
    let (m, e) = choose|m: Seq<char>, e: Seq<char>|
        blanks(m) && blanks(e) && l == #[trigger] (m + t + e);
    law_trimming_takes_blanks_only(m, t, e);
    law_pieces_are_found(t, "scan:"@);
}

proof fn lemma_section_before(before: Seq<Seq<char>>, ts: Seq<Seq<char>>, rest: Seq<Seq<char>>)
    requires
        open_no_section(before, ts),
    ensures
        section_text(before + rest, false) == section_text(rest, false),
    decreases before.len(),
{
    let ls = before + rest;
    if before.len() == 0 {
        assert(ls == rest);
    } else {
        let b = before.skip(1);
        let t = ts.skip(1);
        assert(shows(before[0], ts[0]));
        lemma_shown(before[0], ts[0]);
        assert(ls[0] == before[0]);
        assert(ls.skip(1) == b + rest);
        assert forall|i: int| 0 <= i < b.len() implies shows(#[trigger] b[i], t[i]) && !begins(
            t[i],
            "scan:"@,
        ) by {
            assert(b[i] == before[i + 1]);
        }
        lemma_section_before(b, t, rest);
    }
}

proof fn lemma_section_more(
    more: Seq<Seq<char>>,
    ts: Seq<Seq<char>>,
    after: Seq<Seq<char>>,
    end: Seq<char>,
)
    requires
        ts.len() == more.len(),
        forall|i: int| 0 <= i < more.len() ==> continues(#[trigger] more[i], ts[i]),
        after.len() == 0 || stops(after[0], end),
    ensures
        section_text(more + after, true) == trailing(ts),
    decreases more.len(),
{
    let ls = more + after;
    if more.len() == 0 {
        assert(ls == after);
        if after.len() > 0 {
            lemma_shown(after[0], end);
        }
        assert(section_text(after, true) =~= Seq::<char>::empty());
    } else {
        let b = more.skip(1);
        let t = ts.skip(1);
        assert(continues(more[0], ts[0]));
        lemma_shown(more[0], ts[0]);
        assert(ls[0] == more[0]);
        if ts[0].len() > 0 {
            assert(more[0].len() > 0) by {
                let (m, e) = choose|m: Seq<char>, e: Seq<char>|
                    blanks(m) && blanks(e) && more[0] == #[trigger] (m + ts[0] + e);
            }
            assert(is_space(more[0][0]));
        }
        assert(ls.skip(1) == b + after);
        assert forall|i: int| 0 <= i < b.len() implies continues(#[trigger] b[i], t[i]) by {
            assert(b[i] == more[i + 1]);
        }
        lemma_section_more(b, t, after, end);
    }
}

/// The lines of a status text: some lines, the `scan:` line, lines that go on with
/// it, and the rest.
pub open spec fn sectioned(
    before: Seq<Seq<char>>,
    scan: Seq<char>,
    more: Seq<Seq<char>>,
    after: Seq<Seq<char>>,
) -> Seq<Seq<char>> {
    before + (seq![scan] + (more + after))
}

/// Whether lines are laid out as a status text with a `scan:` section. The texts of
/// the lines are `bs`, `"scan:" + head`, `ts` and, of the line that ends the
/// section, `end`.
pub open spec fn is_sectioned(
    before: Seq<Seq<char>>,
    bs: Seq<Seq<char>>,
    scan: Seq<char>,
    head: Seq<char>,
    more: Seq<Seq<char>>,
    ts: Seq<Seq<char>>,
    after: Seq<Seq<char>>,
    end: Seq<char>,
) -> bool {
    &&& open_no_section(before, bs)
    &&& shows(scan, "scan:"@ + head)
    &&& !begins(head, "scan:"@)
    &&& ts.len() == more.len()
    &&& forall|i: int| 0 <= i < more.len() ==> continues(#[trigger] more[i], ts[i])
    &&& after.len() == 0 || stops(after[0], end)
}

/// The text of the `scan:` section is what stands behind `scan:`, then every line
/// that is blank or stands to the right, in order, up to the first line that is
/// neither. No line is left out and none is added.
pub proof fn law_section_is_read_whole(
    before: Seq<Seq<char>>,
    bs: Seq<Seq<char>>,
    scan: Seq<char>,
    head: Seq<char>,
    more: Seq<Seq<char>>,
    ts: Seq<Seq<char>>,
    after: Seq<Seq<char>>,
    end: Seq<char>,
)
    requires
        is_sectioned(before, bs, scan, head, more, ts, after, end),
    ensures
        section_text(sectioned(before, scan, more, after), false) == head + trailing(ts),
{
    let p = "scan:"@;
    reveal_strlit("scan:");
    let rest = seq![scan] + (more + after);
    lemma_section_before(before, bs, rest);
    lemma_shown(scan, p + head);
    assert(rest[0] == scan);
    assert(rest.skip(1) == more + after);
    assert(begins(p + head, p));
    assert((p + head).skip(p.len() as int) == head);
    law_pieces_are_found(head, p);
    assert(strip_all(head, p) == head);
    assert(strip_all(p + head, p) == strip_all((p + head).skip(p.len() as int), p));
    lemma_section_more(more, ts, after, end);
}

proof fn lemma_trailing_split(ts: Seq<Seq<char>>, k: int)
    requires
        0 <= k < ts.len(),
    ensures
        trailing(ts) == trailing(ts.take(k)) + seq![' '] + ts[k] + trailing(ts.skip(k + 1)),
    decreases k,
{
    if k == 0 {
        assert(trailing(ts.take(0)) =~= Seq::<char>::empty());
        assert(Seq::<char>::empty() + seq![' '] == seq![' ']);
    } else {
        let u = ts.skip(1);
        lemma_trailing_split(u, k - 1);
        assert(u.take(k - 1) == ts.take(k).skip(1));
        assert(ts.take(k)[0] == ts[0]);
        assert(u.skip(k) == ts.skip(k + 1));
        let x = trailing(u.take(k - 1));
        let y = trailing(ts.skip(k + 1));
        assert(seq![' '] + ts[0] + (x + seq![' '] + ts[k] + y) == (seq![' '] + ts[0] + x) + seq![
            ' ',
        ] + ts[k] + y);
    }
}

/// Every line of a section stands in its text, in order: the text of the line `k`
/// behind the texts of those before it.
pub proof fn law_every_line_of_a_section_counts(
    before: Seq<Seq<char>>,
    bs: Seq<Seq<char>>,
    scan: Seq<char>,
    head: Seq<char>,
    more: Seq<Seq<char>>,
    ts: Seq<Seq<char>>,
    after: Seq<Seq<char>>,
    end: Seq<char>,
    k: int,
)
    requires
        is_sectioned(before, bs, scan, head, more, ts, after, end),
        0 <= k < ts.len(),
    ensures
        section_text(sectioned(before, scan, more, after), false) == (head + trailing(ts.take(k))
            + seq![' ']) + ts[k] + trailing(ts.skip(k + 1)),
        holds(section_text(sectioned(before, scan, more, after), false), ts[k]),
{
    law_section_is_read_whole(before, bs, scan, head, more, ts, after, end);
    lemma_trailing_split(ts, k);
    let x = trailing(ts.take(k));
    let y = trailing(ts.skip(k + 1));
    assert(head + (x + seq![' '] + ts[k] + y) == (head + x + seq![' ']) + ts[k] + y);
}

/// What the text of a section says: which scan it is, what became of it, and where
/// its percentage and its errors count. A running scan shows a percentage, a
/// finished one its errors, and neither shows the other's.
pub proof fn law_section_says(raw: Seq<char>)
    ensures
        ({
            let t = section_text(lines(raw), false);
            let resilver = holds(t, "resilver"@) || holds(t, "rebuilt"@);
            let running = holds(t, "in progress"@);
            let stopped = holds(t, "canceled"@) || holds(t, "cancelled"@);
            &&& scan_section(raw) is Some <==> t.len() > 0 && (resilver || holds(t, "scrub"@))
            &&& scan_section(raw) matches Some(s) ==> {
                &&& s.func == ScanFunc::Resilver <==> resilver
                &&& s.func == ScanFunc::Scrub <==> !resilver
                &&& s.state == ScanState::Scanning <==> running
                &&& s.state == ScanState::Canceled <==> !running && stopped
                &&& s.state == ScanState::Finished <==> !running && !stopped
                &&& running ==> s.pct == progress_pct(t) && s.errors is None
                &&& !running ==> s.pct is None
                &&& !running && stopped ==> s.errors is None
                &&& !running && !stopped ==> s.errors == rebuild_errors(t)
                &&& s.bytes == scan_bytes(t)
            }
        }),
{
    let t = section_text(lines(raw), false);
    law_pieces_are_found(t, "resilver"@);
    law_pieces_are_found(t, "rebuilt"@);
    law_pieces_are_found(t, "scrub"@);
    law_pieces_are_found(t, "in progress"@);
    law_pieces_are_found(t, "canceled"@);
    law_pieces_are_found(t, "cancelled"@);
}

/// A percentage on any line of the section is that of the running scan, where no
/// earlier line shows one.
pub proof fn law_progress_is_found_on_any_line(
    before: Seq<Seq<char>>,
    bs: Seq<Seq<char>>,
    scan: Seq<char>,
    head: Seq<char>,
    more: Seq<Seq<char>>,
    ts: Seq<Seq<char>>,
    after: Seq<Seq<char>>,
    end: Seq<char>,
    k: int,
    a: Seq<char>,
    num: Seq<char>,
    b: Seq<char>,
)
    requires
        is_sectioned(before, bs, scan, head, more, ts, after, end),
        are_lines(sectioned(before, scan, more, after)),
        0 <= k < ts.len(),
        ts[k] == a + num + "% done"@ + b,
        num.len() > 0,
        forall|i: int|
            0 <= i < num.len() ==> ('0' <= #[trigger] num[i] && num[i] <= '9') || num[i] == '.',
        a.len() > 0 ==> !('0' <= a.last() && a.last() <= '9') && a.last() != '.',
        !holds(
            (head + trailing(ts.take(k)) + seq![' '] + a + num + "% done"@).drop_last(),
            "% done"@,
        ),
        holds(head + trailing(ts), "in progress"@),
        holds(head + trailing(ts), "resilver"@) || holds(head + trailing(ts), "scrub"@),
    ensures
        scan_section(ended(sectioned(before, scan, more, after), seq!['\n'])) matches Some(s)
            && s.state == ScanState::Scanning && s.pct == parse_float(num),
{
    let ls = sectioned(before, scan, more, after);
    let raw = ended(ls, seq!['\n']);
    law_lines_are_found(ls, seq!['\n']);
    law_section_is_read_whole(before, bs, scan, head, more, ts, after, end);
    law_every_line_of_a_section_counts(before, bs, scan, head, more, ts, after, end, k);
    law_section_says(raw);
    let pre = head + trailing(ts.take(k)) + seq![' '];
    let post = trailing(ts.skip(k + 1));
    let t = head + trailing(ts);
    assert(t == pre + ts[k] + post);
    assert(t == (pre + a) + num + "% done"@ + (b + post));
    law_percentage_is_found(pre + a, num, b + post);
    assert(t.len() > 0) by {
        reveal_strlit("% done");
    }
}

/// A `scan:` section is read only where there is one.
pub proof fn law_no_section_is_made_up(before: Seq<Seq<char>>, bs: Seq<Seq<char>>)
    requires
        open_no_section(before, bs),
    ensures
        section_text(before, false) == Seq::<char>::empty(),
{
    let none = Seq::<Seq<char>>::empty();
    lemma_section_before(before, bs, none);
    assert(before + none == before);
}

/// The errors of a finished scan are the number behind the first `with`.
pub proof fn law_errors_are_found(a: Seq<char>, n: u64, b: Seq<char>)
    requires
        !holds((a + " with "@).drop_last(), " with "@),
        b.len() > 0 ==> !('0' <= b[0] && b[0] <= '9'),
    ensures
        rebuild_errors(a + " with "@ + (decimal(n as nat) + b)) == Some(n),
{
    reveal_strlit(" with ");
    let p = " with "@;
    let d = decimal(n as nat);
    law_first_piece_is_found(a, p, d + b);
    let t = a + p + (d + b);
    let rest = t.skip(a.len() as int + 6);
    assert(rest == d + b);
    lemma_decimal(n as nat);
    assert forall|i: int| 0 <= i < d.len() implies digit()(#[trigger] rest[i]) by {
        assert(rest[i] == d[i]);
        assert(crate::number::digit_value(d[i]) < 10);
    }
    if b.len() > 0 {
        assert(rest[d.len() as int] == b[0]);
    }
    lemma_prefix_len_is(rest, digit(), d.len());
    assert(rest.take(d.len() as int) == d);
    law_written_numbers_read_back(n);
}

/// Without that wording there are none.
pub proof fn law_no_errors_are_made_up(t: Seq<char>)
    ensures
        rebuild_errors(t) is Some ==> holds(t, " with "@),
{
    law_pieces_are_found(t, " with "@);
}

/// Every `scan:` line opens the section, also within one: what stands behind the
/// title goes on with the text.
pub proof fn law_scan_line_opens_the_section(
    l: Seq<char>,
    head: Seq<char>,
    rest: Seq<Seq<char>>,
    inside: bool,
)
    requires
        shows(l, "scan:"@ + head),
        !begins(head, "scan:"@),
    ensures
        section_text(seq![l] + rest, inside) == head + section_text(rest, true),
{
    let p = "scan:"@;
    reveal_strlit("scan:");
    lemma_shown(l, p + head);
    assert((seq![l] + rest)[0] == l);
    assert((seq![l] + rest).skip(1) == rest);
    assert(begins(p + head, p));
    assert((p + head).skip(p.len() as int) == head);
    law_pieces_are_found(head, p);
    assert(strip_all(head, p) == head);
    assert(strip_all(p + head, p) == strip_all((p + head).skip(p.len() as int), p));
}

} // verus!
