//! Texts as they are written, and what reading gives back of them.
//!
//! The functions here put texts together out of words, blanks and lines. The
//! laws say what the operations of [`crate::text`] find in them.

use crate::text::{
    byte_len, char_bytes, contains, ends_with, find, ink, is_space, lemma_find_is,
    lemma_prefix_len_is, lemma_suffix_len_is, lines, occurs_at, other_than, prefix_len, space,
    starts_with, text_le, trim, trim_end, trim_start, words,
};
use vstd::prelude::*;

verus! {

/// Whether `c` is a blank or a tab.
pub open spec fn is_blank(c: char) -> bool {
    c == ' ' || c == '\t'
}

/// Whether `s` is nothing but blanks and tabs.
pub open spec fn blanks(s: Seq<char>) -> bool {
    forall|i: int| 0 <= i < s.len() ==> is_blank(#[trigger] s[i])
}

/// Whether `c` leaves ink: it is printed in ASCII, or stands behind the spaces of
/// Unicode.
pub open spec fn graphic(c: char) -> bool {
    let n = c as u32;
    0x21 <= n <= 0x7e || n >= 0x3001
}

/// Whether `w` is something that leaves ink throughout.
pub open spec fn is_word(w: Seq<char>) -> bool {
    w.len() > 0 && forall|i: int| 0 <= i < w.len() ==> graphic(#[trigger] w[i])
}

/// Whether `s` leaves ink at both ends.
pub open spec fn is_tight(s: Seq<char>) -> bool {
    s.len() > 0 && graphic(s[0]) && graphic(s.last())
}

/// Whether `p` stands somewhere in `s`.
pub open spec fn holds(s: Seq<char>, p: Seq<char>) -> bool {
    exists|a: Seq<char>, b: Seq<char>| s == #[trigger] (a + p + b)
}

/// Words, each with what stands before it.
pub open spec fn spaced(gaps: Seq<Seq<char>>, ws: Seq<Seq<char>>) -> Seq<char>
    decreases ws.len(),
{
    if ws.len() == 0 {
        Seq::empty()
    } else {
        gaps[0] + ws[0] + spaced(gaps.skip(1), ws.skip(1))
    }
}

/// Whether `gaps` can stand before `ws`: blanks and tabs, and something before
/// every word but the first.
pub open spec fn are_gaps(gaps: Seq<Seq<char>>, ws: Seq<Seq<char>>) -> bool {
    &&& gaps.len() == ws.len()
    &&& forall|i: int| 0 <= i < gaps.len() ==> blanks(#[trigger] gaps[i])
    &&& forall|i: int| 0 < i < gaps.len() ==> (#[trigger] gaps[i]).len() > 0
}

/// Whether all of `ws` are words.
pub open spec fn are_words(ws: Seq<Seq<char>>) -> bool {
    forall|i: int| 0 <= i < ws.len() ==> is_word(#[trigger] ws[i])
}

/// Lines, each with the ending `end` behind it.
pub open spec fn ended(ls: Seq<Seq<char>>, end: Seq<char>) -> Seq<char>
    decreases ls.len(),
{
    if ls.len() == 0 {
        Seq::empty()
    } else {
        ls[0] + end + ended(ls.skip(1), end)
    }
}

/// Whether `l` can be a line: no line feed in it, and no carriage return at its
/// end.
pub open spec fn is_line(l: Seq<char>) -> bool {
    &&& forall|i: int| 0 <= i < l.len() ==> #[trigger] l[i] != '\n'
    &&& l.len() > 0 ==> l.last() != '\r'
}

/// Whether all of `ls` are lines.
pub open spec fn are_lines(ls: Seq<Seq<char>>) -> bool {
    forall|i: int| 0 <= i < ls.len() ==> is_line(#[trigger] ls[i])
}

/// Blanks and tabs are white space, and nothing that leaves ink is.
pub proof fn law_blanks_are_white(c: char)
    ensures
        is_blank(c) || c == '\n' || c == '\r' ==> is_space(c),
        graphic(c) ==> !is_space(c),
{
}

pub proof fn lemma_words_skip(gap: Seq<char>, rest: Seq<char>)
    requires
        blanks(gap),
    ensures
        words(gap + rest) == words(rest),
    decreases gap.len(),
{
    let s = gap + rest;
    if gap.len() > 0 {
        assert(is_blank(gap[0]));
        assert(s[0] == gap[0]);
        assert(blanks(gap.skip(1))) by {
            assert forall|i: int| 0 <= i < gap.skip(1).len() implies is_blank(
                #[trigger] gap.skip(1)[i],
            ) by {
                assert(gap.skip(1)[i] == gap[i + 1]);
            }
        }
        assert(s.skip(1) == gap.skip(1) + rest);
        lemma_words_skip(gap.skip(1), rest);
    } else {
        assert(s == rest);
    }
}

pub proof fn lemma_words_take(w: Seq<char>, rest: Seq<char>)
    requires
        is_word(w),
        rest.len() > 0 ==> is_blank(rest[0]),
    ensures
        words(w + rest) == seq![w] + words(rest),
{
    let s = w + rest;
    assert(graphic(w[0]));
    assert(s[0] == w[0]);
    assert forall|i: int| 0 <= i < w.len() implies ink()(#[trigger] s[i]) by {
        assert(s[i] == w[i]);
        assert(graphic(w[i]));
    }
    if rest.len() > 0 {
        assert(s[w.len() as int] == rest[0]);
    }
    lemma_prefix_len_is(s, ink(), w.len());
    assert(s.take(w.len() as int) == w);
    assert(s.skip(w.len() as int) == rest);
}

/// The words of a line are those that were written, whatever blanks and tabs stand
/// before, between and behind them.
pub proof fn law_words_are_found(gaps: Seq<Seq<char>>, ws: Seq<Seq<char>>, tail: Seq<char>)
    requires
        are_words(ws),
        are_gaps(gaps, ws),
        blanks(tail),
    ensures
        words(spaced(gaps, ws) + tail) == ws,
    decreases ws.len(),
{
    if ws.len() == 0 {
        assert(spaced(gaps, ws) + tail == tail + Seq::<char>::empty());
        lemma_words_skip(tail, Seq::empty());
        assert(words(Seq::<char>::empty()) =~= ws);
    } else {
        let rest_ws = ws.skip(1);
        let rest_gaps = gaps.skip(1);
        lemma_skip_gaps(gaps, ws);
        law_words_are_found(rest_gaps, rest_ws, tail);
        let rest = spaced(rest_gaps, rest_ws) + tail;
        assert(is_word(ws[0]));
        assert(blanks(gaps[0]));
        if ws.len() > 1 {
            assert(rest_gaps[0] == gaps[1]);
            assert(gaps[1].len() > 0 && blanks(gaps[1]));
            assert(is_blank(gaps[1][0]));
            assert(rest[0] == gaps[1][0]);
        } else {
            assert(rest == tail);
            if tail.len() > 0 {
                assert(is_blank(tail[0]));
            }
        }
        lemma_words_take(ws[0], rest);
        lemma_words_skip(gaps[0], ws[0] + rest);
        assert(spaced(gaps, ws) + tail == gaps[0] + (ws[0] + rest));
        assert(seq![ws[0]] + rest_ws == ws);
    }
}

pub proof fn lemma_skip_gaps(gaps: Seq<Seq<char>>, ws: Seq<Seq<char>>)
    requires
        are_words(ws),
        are_gaps(gaps, ws),
        ws.len() > 0,
    ensures
        are_words(ws.skip(1)),
        are_gaps(gaps.skip(1), ws.skip(1)),
{
    let w = ws.skip(1);
    let g = gaps.skip(1);
    assert forall|i: int| 0 <= i < w.len() implies is_word(#[trigger] w[i]) by {
        assert(w[i] == ws[i + 1]);
    }
    assert forall|i: int| 0 <= i < g.len() implies blanks(#[trigger] g[i]) by {
        assert(g[i] == gaps[i + 1]);
    }
    assert forall|i: int| 0 < i < g.len() implies (#[trigger] g[i]).len() > 0 by {
        assert(g[i] == gaps[i + 1]);
    }
}

pub proof fn lemma_blank_prefix(m: Seq<char>, t: Seq<char>)
    requires
        blanks(m),
        t.len() > 0 ==> graphic(t[0]),
    ensures
        prefix_len(m + t, space()) == m.len(),
        trim_start(m + t) == t,
{
    let s = m + t;
    assert forall|i: int| 0 <= i < m.len() implies space()(#[trigger] s[i]) by {
        assert(is_blank(m[i]));
    }
    if t.len() > 0 {
        assert(s[m.len() as int] == t[0]);
    }
    lemma_prefix_len_is(s, space(), m.len());
    assert(s.skip(m.len() as int) == t);
}

pub proof fn lemma_blank_suffix(t: Seq<char>, m: Seq<char>)
    requires
        blanks(m),
        t.len() > 0 ==> graphic(t.last()),
    ensures
        trim_end(t + m) == t,
{
    let s = t + m;
    assert forall|i: int| s.len() - m.len() <= i < s.len() implies space()(#[trigger] s[i]) by {
        assert(is_blank(m[i - t.len()]));
    }
    if t.len() > 0 {
        assert(s[s.len() - m.len() - 1] == t.last());
    }
    lemma_suffix_len_is(s, space(), m.len());
    assert(s.take(s.len() - m.len()) == t);
}

/// Trimming takes blanks and tabs off the ends of a text, and nothing else.
pub proof fn law_trimming_takes_blanks_only(a: Seq<char>, t: Seq<char>, b: Seq<char>)
    requires
        blanks(a),
        blanks(b),
        t.len() == 0 || is_tight(t),
    ensures
        trim(a + t + b) == t,
        t.len() > 0 ==> trim_start(a + t + b) == t + b,
        trim_end(t + b) == t,
{
    if t.len() > 0 {
        assert(a + t + b == a + (t + b));
        assert((t + b)[0] == t[0]);
        lemma_blank_prefix(a, t + b);
        lemma_blank_suffix(t, b);
    } else {
        let m = a + b;
        assert(a + t + b == m + t);
        assert forall|i: int| 0 <= i < m.len() implies is_blank(#[trigger] m[i]) by {
            if i < a.len() {
                assert(is_blank(a[i]));
            } else {
                assert(is_blank(b[i - a.len()]));
            }
        }
        lemma_blank_prefix(m, t);
        lemma_blank_suffix(t, b);
        lemma_blank_suffix(t, t);
        assert(t + t == t);
    }
}

/// The lines of a text are those that were written, whether they end in a line
/// feed or in a carriage return and a line feed.
pub proof fn law_lines_are_found(ls: Seq<Seq<char>>, end: Seq<char>)
    requires
        are_lines(ls),
        end == seq!['\n'] || end == seq!['\r', '\n'],
    ensures
        lines(ended(ls, end)) == ls,
    decreases ls.len(),
{
    if ls.len() == 0 {
        assert(lines(Seq::<char>::empty()) =~= ls);
    } else {
        let l = ls[0];
        let rest = ended(ls.skip(1), end);
        assert(is_line(l));
        assert forall|i: int| 0 <= i < ls.skip(1).len() implies is_line(#[trigger] ls.skip(1)[i]) by {
            assert(ls.skip(1)[i] == ls[i + 1]);
        }
        law_lines_are_found(ls.skip(1), end);
        let s = l + end + rest;
        let n = l.len() + end.len() - 1;
        assert forall|i: int| 0 <= i < n implies other_than('\n')(#[trigger] s[i]) by {
            if i < l.len() {
                assert(s[i] == l[i]);
            } else {
                assert(s[i] == end[i - l.len()]);
            }
        }
        assert(s[n] == end.last());
        lemma_prefix_len_is(s, other_than('\n'), n as nat);
        assert(s.skip(n + 1) == rest);
        if end.len() == 1 {
            assert(s.take(n) == l);
        } else {
            assert(s.take(n) == l.push('\r'));
            assert(l.push('\r').drop_last() == l);
        }
        assert(seq![l] + ls.skip(1) == ls);
    }
}

/// A text contains a piece exactly where it is made of something, the piece and
/// something, starts with it where nothing comes before it, and ends with it where
/// nothing comes behind it.
pub proof fn law_pieces_are_found(s: Seq<char>, p: Seq<char>)
    ensures
        contains(s, p) <==> holds(s, p),
        starts_with(s, p) <==> exists|b: Seq<char>| s == #[trigger] (p + b),
        ends_with(s, p) <==> exists|a: Seq<char>| s == #[trigger] (a + p),
        find(s, p) is Some <==> holds(s, p),
{
    if contains(s, p) {
        let i = choose|i: int| occurs_at(s, p, i);
        let a = s.take(i);
        let b = s.skip(i + p.len());
        assert(s == a + p + b);
        lemma_first_exists(s, p, i);
    }
    if holds(s, p) {
        let (a, b) = choose|a: Seq<char>, b: Seq<char>| s == #[trigger] (a + p + b);
        assert(s.subrange(a.len() as int, (a.len() + p.len()) as int) == p);
        assert(occurs_at(s, p, a.len() as int));
    }
    if starts_with(s, p) {
        assert(s == p + s.skip(p.len() as int));
    }
    if exists|b: Seq<char>| s == #[trigger] (p + b) {
        let b = choose|b: Seq<char>| s == #[trigger] (p + b);
        assert(s.subrange(0, p.len() as int) == p);
    }
    if ends_with(s, p) {
        assert(s == s.take(s.len() - p.len()) + p);
    }
    if exists|a: Seq<char>| s == #[trigger] (a + p) {
        let a = choose|a: Seq<char>| s == #[trigger] (a + p);
        assert(s.subrange(s.len() - p.len(), s.len() as int) == p);
    }
}

proof fn lemma_first_exists(s: Seq<char>, p: Seq<char>, i: int)
    requires
        occurs_at(s, p, i),
    ensures
        find(s, p) is Some,
    decreases i,
{
    if exists|j: int| 0 <= j < i && occurs_at(s, p, j) {
        let j = choose|j: int| 0 <= j < i && occurs_at(s, p, j);
        lemma_first_exists(s, p, j);
    } else {
        lemma_find_is(s, p, i);
    }
}

/// A piece is found at the first place where it stands.
pub proof fn law_first_piece_is_found(a: Seq<char>, p: Seq<char>, b: Seq<char>)
    requires
        p.len() > 0,
        !holds((a + p).drop_last(), p),
    ensures
        find(a + p + b, p) == Some(a.len() as int),
{
    let s = a + p + b;
    let t = (a + p).drop_last();
    assert(s.subrange(a.len() as int, (a.len() + p.len()) as int) == p);
    assert forall|j: int| 0 <= j < a.len() implies !occurs_at(s, p, j) by {
        if occurs_at(s, p, j) {
            let x = t.take(j);
            let y = t.skip(j + p.len());
            assert(t == x + p + y) by {
                assert forall|k: int| j <= k < j + p.len() implies t[k] == #[trigger] p[k - j] by {
                    assert(s.subrange(j, j + p.len())[k - j] == s[k]);
                }
            }
        }
    }
    lemma_find_is(s, p, a.len() as int);
}

/// Texts are ordered by the first character in which they differ; a text stands
/// before its continuations.
pub proof fn law_text_order(p: Seq<char>, x: char, s: Seq<char>, y: char, t: Seq<char>)
    ensures
        x != y ==> (text_le(p + seq![x] + s, p + seq![y] + t) <==> x < y),
        text_le(p, p + s),
        s.len() > 0 ==> !text_le(p + s, p),
    decreases p.len(),
{
    let a = p + seq![x] + s;
    let b = p + seq![y] + t;
    if p.len() == 0 {
        assert(a[0] == x && b[0] == y);
        assert(p + s =~= s);
    } else {
        let q = p.skip(1);
        assert(a[0] == p[0] && b[0] == p[0]);
        assert(a.skip(1) == q + seq![x] + s);
        assert(b.skip(1) == q + seq![y] + t);
        assert((p + s)[0] == p[0]);
        assert((p + s).skip(1) == q + s);
        law_text_order(q, x, s, y, t);
    }
}

/// How many bytes a character takes.
pub proof fn law_bytes_of_a_character(c: char)
    ensures
        char_bytes(c) == 1 <==> (c as u32) <= 0x7f,
        char_bytes(c) == 2 <==> 0x80 <= (c as u32) <= 0x7ff,
        char_bytes(c) == 3 <==> 0x800 <= (c as u32) <= 0xffff,
        char_bytes(c) == 4 <==> 0x1_0000 <= (c as u32),
{
}

/// A text takes the bytes of its characters together.
pub proof fn law_bytes_add_up(a: Seq<char>, c: char, b: Seq<char>)
    ensures
        byte_len(a + seq![c] + b) == byte_len(a) + char_bytes(c) + byte_len(b),
        byte_len(Seq::<char>::empty()) == 0,
    decreases b.len(),
{
    if b.len() == 0 {
        let s = a + seq![c] + b;
        assert(s.drop_last() == a);
        assert(s.last() == c);
    } else {
        let s = a + seq![c] + b;
        assert(s.drop_last() == a + seq![c] + b.drop_last());
        assert(s.last() == b.last());
        law_bytes_add_up(a, c, b.drop_last());
    }
}

/// What counts as white space: the controls from tab to carriage return, the blank,
/// and the spaces and separators of Unicode.
pub proof fn law_white_space(c: char)
    ensures
        is_space(c) <==> seq![
            '\t',
            '\n',
            '\u{b}',
            '\u{c}',
            '\r',
            ' ',
            '\u{85}',
            '\u{a0}',
            '\u{1680}',
            '\u{2000}',
            '\u{2001}',
            '\u{2002}',
            '\u{2003}',
            '\u{2004}',
            '\u{2005}',
            '\u{2006}',
            '\u{2007}',
            '\u{2008}',
            '\u{2009}',
            '\u{200a}',
            '\u{2028}',
            '\u{2029}',
            '\u{202f}',
            '\u{205f}',
            '\u{3000}',
        ].contains(c),
{
    let s = seq![
        '\t',
        '\n',
        '\u{b}',
        '\u{c}',
        '\r',
        ' ',
        '\u{85}',
        '\u{a0}',
        '\u{1680}',
        '\u{2000}',
        '\u{2001}',
        '\u{2002}',
        '\u{2003}',
        '\u{2004}',
        '\u{2005}',
        '\u{2006}',
        '\u{2007}',
        '\u{2008}',
        '\u{2009}',
        '\u{200a}',
        '\u{2028}',
        '\u{2029}',
        '\u{202f}',
        '\u{205f}',
        '\u{3000}',
    ];
    if is_space(c) {
        assert(c == s[0] || c == s[1] || c == s[2] || c == s[3] || c == s[4] || c == s[5] || c
            == s[6] || c == s[7] || c == s[8] || c == s[9] || c == s[10] || c == s[11] || c
            == s[12] || c == s[13] || c == s[14] || c == s[15] || c == s[16] || c == s[17] || c
            == s[18] || c == s[19] || c == s[20] || c == s[21] || c == s[22] || c == s[23] || c
            == s[24]);
    }
}

} // verus!
