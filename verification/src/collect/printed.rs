//! What `zpool status -v` prints is what is read.
//!
//! The laws here put status texts together as `zpool` prints them, out of names,
//! states, counters and blanks, and say what the parser of
//! [`crate::collect::status`] makes of them.


use crate::collect::status::{
    counter_token, counter_values, deeper, law_annotations_keep_counters, lemma_outline_concat,
    lemma_outline_single, outline, outside_table, progress_pct, row_counters, state_token,
    status_line, status_text, table_row, table_tree, words_before_state, Row, StatusText,
};
use crate::decimal::parse_float;
use crate::model::{VdevNode, VdevRow, VdevState};
use crate::number::{
    all_digits, decimal, digit_value, law_written_numbers_read_back, lemma_decimal, strip_plus,
};
use crate::text::{
    byte_len, contains, digit_or_point, find, join, lemma_find_is, lemma_prefix_len,
    lemma_prefix_len_is, lemma_suffix_len, lemma_suffix_len_is, occurs_at, prefix_len, space,
    starts_with, suffix_len, trim_start, words,
};
use crate::writing::{
    are_gaps, are_words, blanks, graphic, holds, is_blank, is_word, law_first_piece_is_found,
    law_pieces_are_found, law_words_are_found, lemma_blank_prefix, lemma_blank_suffix,
    lemma_skip_gaps, lemma_words_skip, spaced,
};
use vstd::prelude::*;

verus! {

/// The word that `zpool` prints for a state.
pub open spec fn state_word(state: VdevState) -> Seq<char> {
    match state {
        VdevState::Online => "ONLINE"@,
        VdevState::Degraded => "DEGRADED"@,
        VdevState::Faulted => "FAULTED"@,
        VdevState::Offline => "OFFLINE"@,
        VdevState::Removed => "REMOVED"@,
        VdevState::Unavail => "UNAVAIL"@,
    }
}

/// Words with one blank between each two.
pub open spec fn phrase(ws: Seq<Seq<char>>) -> Seq<char>
    decreases ws.len(),
{
    if ws.len() == 0 {
        Seq::empty()
    } else if ws.len() == 1 {
        ws[0]
    } else {
        ws[0] + seq![' '] + phrase(ws.skip(1))
    }
}

/// Whether a word can stand in the name of a vdev: it is no state.
pub open spec fn names_no_state(w: Seq<char>) -> bool {
    forall|s: VdevState| w != #[trigger] state_word(s)
}

/// Whether a word can annotate a row: it ends neither in a digit nor in the letter
/// of a unit, so that it is no counter.
pub open spec fn is_note(w: Seq<char>) -> bool {
    &&& is_word(w)
    &&& !(w.last() >= '0' && w.last() <= '9')
    &&& w.last() != 'K' && w.last() != 'k' && w.last() != 'M' && w.last() != 'm'
    &&& w.last() != 'G' && w.last() != 'g' && w.last() != 'T' && w.last() != 't'
    &&& w.last() != 'P' && w.last() != 'p'
}

/// The words of a row: a name, a state, three counters and annotations.
pub open spec fn row_words(
    name: Seq<Seq<char>>,
    state: VdevState,
    read: u64,
    write: u64,
    cksum: u64,
    notes: Seq<Seq<char>>,
) -> Seq<Seq<char>> {
    name + seq![
        state_word(state),
        decimal(read as nat),
        decimal(write as nat),
        decimal(cksum as nat),
    ] + notes
}

/// Whether a line stands outside the vdev table: it holds the title of a section,
/// or starts like the headings of the table.
pub open spec fn is_title(l: Seq<char>) -> bool {
    ||| holds(l, "state:"@)
    ||| holds(l, "status:"@)
    ||| holds(l, "action:"@)
    ||| holds(l, "see:"@)
    ||| holds(l, "config:"@)
    ||| exists|b: Seq<char>| l == #[trigger] ("NAME"@ + b)
    ||| exists|b: Seq<char>| l == #[trigger] ("-"@ + b)
}

/// Whether a line belongs to the sections on the scan or on errors.
pub open spec fn is_section(l: Seq<char>) -> bool {
    ||| holds(l, " scan:"@)
    ||| exists|b: Seq<char>| l == #[trigger] ("scan:"@ + b)
    ||| exists|b: Seq<char>| l == #[trigger] ("errors:"@ + b)
}

proof fn lemma_title(l: Seq<char>)
    ensures
        outside_table(l) <==> is_title(l),
{
    law_pieces_are_found(l, "state:"@);
    law_pieces_are_found(l, "status:"@);
    law_pieces_are_found(l, "action:"@);
    law_pieces_are_found(l, "see:"@);
    law_pieces_are_found(l, "config:"@);
    law_pieces_are_found(l, "NAME"@);
    law_pieces_are_found(l, "-"@);
}

proof fn lemma_section(l: Seq<char>)
    ensures
        starts_with(l, "scan:"@) || contains(l, " scan:"@) || starts_with(l, "errors:"@)
            <==> is_section(l),
{
    law_pieces_are_found(l, "scan:"@);
    law_pieces_are_found(l, " scan:"@);
    law_pieces_are_found(l, "errors:"@);
}

/// A state is read back from the word that is printed for it, and from no other.
pub proof fn law_states_are_read_back(state: VdevState, w: Seq<char>)
    ensures
        state_token(state_word(state)) == Some(state),
        names_no_state(w) <==> state_token(w) is None,
        is_word(state_word(state)),
{
    reveal_strlit("ONLINE");
    reveal_strlit("DEGRADED");
    reveal_strlit("FAULTED");
    reveal_strlit("OFFLINE");
    reveal_strlit("REMOVED");
    reveal_strlit("UNAVAIL");
    assert("FAULTED"@[0] == 'F' && "OFFLINE"@[0] == 'O' && "REMOVED"@[0] == 'R' && "UNAVAIL"@[0]
        == 'U');
    assert("ONLINE"@.len() == 6 && "DEGRADED"@.len() == 8);
    if state_token(w) is Some {
        assert(w == state_word(state_token(w)->Some_0));
    } else {
        assert(state_word(VdevState::Online) == "ONLINE"@);
    }
}

pub proof fn lemma_decimal_word(n: nat)
    ensures
        is_word(decimal(n)),
{
    lemma_decimal(n);
    let s = decimal(n);
    assert forall|i: int| 0 <= i < s.len() implies graphic(#[trigger] s[i]) by {
        assert(digit_value(s[i]) < 10);
    }
}

proof fn lemma_note(w: Seq<char>)
    requires
        is_note(w),
    ensures
        counter_token(w) is None,
{
    let t = strip_plus(w);
    if t.len() > 0 && all_digits(t, 10) {
        assert(digit_value(t[t.len() - 1]) < 10);
        assert(t.last() == w.last());
    }
}

pub proof fn lemma_phrase(ws: Seq<Seq<char>>)
    ensures
        join(ws, seq![' ']) == phrase(ws),
    decreases ws.len(),
{
    if ws.len() >= 2 {
        lemma_phrase_back(ws);
        lemma_phrase(ws.drop_last());
    }
}

proof fn lemma_phrase_back(ws: Seq<Seq<char>>)
    requires
        ws.len() >= 2,
    ensures
        phrase(ws) == phrase(ws.drop_last()) + seq![' '] + ws.last(),
    decreases ws.len(),
{
    let d = ws.drop_last();
    if ws.len() == 2 {
        assert(phrase(ws.skip(1)) == ws[1]);
        assert(phrase(d) == ws[0]);
    } else {
        let t = ws.skip(1);
        lemma_phrase_back(t);
        assert(t.drop_last() == d.skip(1));
        assert(phrase(d) == d[0] + seq![' '] + phrase(d.skip(1)));
        assert(phrase(ws) == ws[0] + seq![' '] + (phrase(t.drop_last()) + seq![' '] + t.last()));
        assert(ws[0] + seq![' '] + (phrase(t.drop_last()) + seq![' '] + t.last()) == ws[0] + seq![
            ' ',
        ] + phrase(t.drop_last()) + seq![' '] + t.last());
    }
}

proof fn lemma_state_at(name: Seq<Seq<char>>, rest: Seq<Seq<char>>)
    requires
        forall|i: int| 0 <= i < name.len() ==> names_no_state(#[trigger] name[i]),
        rest.len() > 0,
        state_token(rest[0]) is Some,
    ensures
        words_before_state(name + rest) == name.len(),
    decreases name.len(),
{
    let ws = name + rest;
    if name.len() == 0 {
        assert(ws == rest);
    } else {
        assert(names_no_state(name[0]));
        law_states_are_read_back(VdevState::Online, name[0]);
        let t = name.skip(1);
        assert forall|i: int| 0 <= i < t.len() implies names_no_state(#[trigger] t[i]) by {
            assert(t[i] == name[i + 1]);
        }
        lemma_state_at(t, rest);
        assert(ws.skip(1) == t + rest);
    }
}

proof fn lemma_three_counters(read: u64, write: u64, cksum: u64, notes: Seq<Seq<char>>)
    requires
        forall|i: int| 0 <= i < notes.len() ==> is_note(#[trigger] notes[i]),
    ensures
        row_counters(
            seq![decimal(read as nat), decimal(write as nat), decimal(cksum as nat)] + notes,
        ) == (read, write, cksum),
{
    let ts = seq![decimal(read as nat), decimal(write as nat), decimal(cksum as nat)];
    assert forall|i: int| 0 <= i < notes.len() implies counter_token(
        #[trigger] notes[i],
    ) is None by {
        assert(is_note(notes[i]));
        lemma_note(notes[i]);
    }
    law_annotations_keep_counters(ts, notes);
    law_written_numbers_read_back(read);
    law_written_numbers_read_back(write);
    law_written_numbers_read_back(cksum);
    let t2 = ts.drop_last();
    let t1 = t2.drop_last();
    let t0 = t1.drop_last();
    assert(t2.last() == ts[1] && t1.last() == ts[0]);
    assert(counter_values(t0) =~= Seq::<u64>::empty());
    assert(counter_values(t1) =~= seq![read]);
    assert(counter_values(t2) =~= seq![read, write]);
    assert(counter_values(ts) =~= seq![read, write, cksum]);
}

/// A line of words ends in ink, and its margin is what stands before the first.
pub proof fn lemma_spaced_shape(gaps: Seq<Seq<char>>, ws: Seq<Seq<char>>)
    requires
        are_words(ws),
        are_gaps(gaps, ws),
        ws.len() > 0,
    ensures
        spaced(gaps, ws).len() > 0,
        graphic(spaced(gaps, ws).last()),
        spaced(gaps, ws) == gaps[0] + spaced(gaps, ws).skip(gaps[0].len() as int),
        spaced(gaps, ws).skip(gaps[0].len() as int).len() > 0,
        graphic(spaced(gaps, ws)[gaps[0].len() as int]),
    decreases ws.len(),
{
    let s = spaced(gaps, ws);
    assert(is_word(ws[0]));
    assert(graphic(ws[0][0]));
    assert(graphic(ws[0][ws[0].len() - 1]));
    assert(s[gaps[0].len() as int] == ws[0][0]);
    if ws.len() > 1 {
        lemma_skip_gaps(gaps, ws);
        lemma_spaced_shape(gaps.skip(1), ws.skip(1));
        assert(s.last() == spaced(gaps.skip(1), ws.skip(1)).last());
    } else {
        assert(spaced(gaps.skip(1), ws.skip(1)) =~= Seq::<char>::empty());
        assert(s.last() == ws[0].last());
    }
}

proof fn lemma_blank_bytes(m: Seq<char>)
    requires
        blanks(m),
    ensures
        byte_len(m) == m.len(),
    decreases m.len(),
{
    if m.len() > 0 {
        assert(is_blank(m[m.len() - 1]));
        assert(blanks(m.drop_last())) by {
            assert forall|i: int| 0 <= i < m.drop_last().len() implies is_blank(
                #[trigger] m.drop_last()[i],
            ) by {
                assert(m.drop_last()[i] == m[i]);
            }
        }
        lemma_blank_bytes(m.drop_last());
    }
}

/// Every row of the vdev table is read: a name, a state word and three counters,
/// with any blanks and tabs before and between them and any annotations behind
/// them, give one row more, with that name, that state and those counters, indented
/// as far as the line is. The row shows a percentage exactly where the line does.
pub proof fn law_every_row_is_read(
    st: StatusText,
    gaps: Seq<Seq<char>>,
    name: Seq<Seq<char>>,
    state: VdevState,
    read: u64,
    write: u64,
    cksum: u64,
    notes: Seq<Seq<char>>,
    tail: Seq<char>,
)
    requires
        !st.in_errors,
        name.len() > 0,
        are_words(name),
        forall|i: int| 0 <= i < name.len() ==> names_no_state(#[trigger] name[i]),
        forall|i: int| 0 <= i < notes.len() ==> is_note(#[trigger] notes[i]),
        are_gaps(gaps, row_words(name, state, read, write, cksum, notes)),
        blanks(tail),
        ({
            let l = spaced(gaps, row_words(name, state, read, write, cksum, notes));
            !is_title(l) && !is_section(l)
        }),
    ensures
        ({
            let l = spaced(gaps, row_words(name, state, read, write, cksum, notes));
            let pct = progress_pct(l);
            &&& status_line(st, l + tail).rows == st.rows.push(
                Row {
                    indent: gaps[0].len(),
                    row: VdevRow {
                        name: phrase(name),
                        state,
                        is_rebuild_target: pct is Some,
                        read_err: read,
                        write_err: write,
                        checksum_err: cksum,
                        rebuild_pct: pct,
                    },
                },
            )
            &&& !holds(l, "% done"@) ==> pct is None
        }),
{
    let ws = row_words(name, state, read, write, cksum, notes);
    let l = spaced(gaps, ws);
    let m = gaps[0];
    law_states_are_read_back(state, name[0]);
    lemma_decimal_word(read as nat);
    lemma_decimal_word(write as nat);
    lemma_decimal_word(cksum as nat);
    let four = seq![
        state_word(state),
        decimal(read as nat),
        decimal(write as nat),
        decimal(cksum as nat),
    ];
    assert forall|i: int| 0 <= i < ws.len() implies is_word(#[trigger] ws[i]) by {
        if i < name.len() {
            assert(ws[i] == name[i]);
        } else if i < name.len() + 4 {
            assert(ws[i] == four[i - name.len()]);
        } else {
            assert(ws[i] == notes[i - name.len() - 4]);
        }
    }
    lemma_spaced_shape(gaps, ws);
    lemma_blank_suffix(l, tail);
    let t = l.skip(m.len() as int);
    assert(blanks(m));
    assert(t[0] == l[m.len() as int]);
    lemma_blank_prefix(m, t);
    lemma_title(l);
    lemma_section(l);
    law_words_are_found(gaps, ws, Seq::empty());
    assert(l + Seq::<char>::empty() == l);
    lemma_words_skip(m, t);
    assert(words(t) == ws);
    let rest = four + notes;
    assert(ws == name + rest);
    assert(rest[0] == state_word(state));
    lemma_state_at(name, rest);
    let si = name.len() as int;
    assert(ws[si] == state_word(state));
    assert(ws.take(si) == name);
    lemma_phrase(name);
    assert(ws.skip(si + 1) == seq![
        decimal(read as nat),
        decimal(write as nat),
        decimal(cksum as nat),
    ] + notes);
    lemma_three_counters(read, write, cksum, notes);
    assert(l.take(m.len() as int) == m);
    lemma_blank_bytes(m);
    law_pieces_are_found(l, "% done"@);
    assert(table_row(l) is Some);
}

/// The percentage of a line is the number that stands before its first `% done`;
/// without that wording there is none.
pub proof fn law_percentage_is_found(a: Seq<char>, num: Seq<char>, b: Seq<char>)
    requires
        num.len() > 0,
        forall|i: int|
            0 <= i < num.len() ==> ('0' <= #[trigger] num[i] && num[i] <= '9') || num[i] == '.',
        a.len() > 0 ==> !('0' <= a.last() && a.last() <= '9') && a.last() != '.',
        !holds((a + num + "% done"@).drop_last(), "% done"@),
    ensures
        progress_pct(a + num + "% done"@ + b) == parse_float(num),
{
    reveal_strlit("% done");
    let p = "% done"@;
    law_first_piece_is_found(a + num, p, b);
    let s = a + num + p + b;
    let before = s.take((a + num).len() as int);
    assert(before == a + num);
    assert forall|i: int| before.len() - num.len() <= i < before.len() implies digit_or_point()(
        #[trigger] before[i],
    ) by {
        assert(before[i] == num[i - a.len()]);
    }
    if a.len() > 0 {
        assert(before[before.len() - num.len() - 1] == a.last());
    }
    lemma_suffix_len_is(before, digit_or_point(), num.len());
    assert(before.skip(before.len() - num.len()) == num);
}

/// Without the wording there is no percentage.
pub proof fn law_no_percentage_is_made_up(l: Seq<char>)
    ensures
        progress_pct(l) is Some ==> holds(l, "% done"@),
{
    law_pieces_are_found(l, "% done"@);
}

proof fn lemma_margin_pieces(m: Seq<char>, l: Seq<char>, p: Seq<char>)
    requires
        blanks(m),
        p.len() > 0,
        graphic(p[0]),
    ensures
        holds(m + l, p) <==> holds(l, p),
        find(m + l, p) == (match find(l, p) {
            Some(i) => Some(i + m.len()),
            None => None::<int>,
        }),
{
    let s = m + l;
    assert forall|j: int| occurs_at(s, p, j) implies j >= m.len() && occurs_at(
        l,
        p,
        j - m.len(),
    ) by {
        assert(s.subrange(j, j + p.len())[0] == s[j]);
        if j < m.len() {
            assert(is_blank(m[j]));
        }
        assert(l.subrange(j - m.len(), j - m.len() + p.len()) == s.subrange(j, j + p.len()));
    }
    assert forall|j: int| occurs_at(l, p, j) implies occurs_at(s, p, j + m.len()) by {
        assert(s.subrange(j + m.len(), j + m.len() + p.len()) == l.subrange(j, j + p.len()));
    }
    law_pieces_are_found(s, p);
    law_pieces_are_found(l, p);
    if contains(l, p) {
        let j = choose|j: int| occurs_at(l, p, j);
        assert(occurs_at(s, p, j + m.len()));
    }
    if let Some(i) = find(l, p) {
        assert forall|j: int| 0 <= j < i + m.len() implies !occurs_at(s, p, j) by {
            if occurs_at(s, p, j) {
                assert(occurs_at(l, p, j - m.len()));
            }
        }
        lemma_find_is(s, p, i + m.len());
    }
}

proof fn lemma_margin_percentage(m: Seq<char>, l: Seq<char>)
    requires
        blanks(m),
    ensures
        progress_pct(m + l) == progress_pct(l),
{
    reveal_strlit("% done");
    let p = "% done"@;
    lemma_margin_pieces(m, l, p);
    if let Some(i) = find(l, p) {
        let short = l.take(i);
        let long = (m + l).take(i + m.len());
        assert(long == m + short);
        lemma_suffix_len(short, digit_or_point());
        let n = suffix_len(short, digit_or_point());
        assert forall|k: int| long.len() - n <= k < long.len() implies digit_or_point()(
            #[trigger] long[k],
        ) by {
            assert(long[k] == short[k - m.len()]);
        }
        if n < long.len() {
            if n < short.len() {
                assert(long[long.len() - n - 1] == short[short.len() - n - 1]);
            } else {
                assert(long[long.len() - n - 1] == m.last());
                assert(is_blank(m[m.len() - 1]));
            }
        }
        lemma_suffix_len_is(long, digit_or_point(), n);
        assert(long.skip(long.len() - n) == short.skip(short.len() - n));
    }
}

proof fn lemma_bytes_concat(a: Seq<char>, b: Seq<char>)
    ensures
        byte_len(a + b) == byte_len(a) + byte_len(b),
    decreases b.len(),
{
    if b.len() == 0 {
        assert(a + b == a);
    } else {
        assert((a + b).drop_last() == a + b.drop_last());
        lemma_bytes_concat(a, b.drop_last());
    }
}

/// A row that stands further to the right by `by`.
pub open spec fn moved(r: Row, by: nat) -> Row {
    Row { indent: r.indent + by, row: r.row }
}

/// Putting blanks or tabs before a row moves it to the right and changes nothing
/// else of it, and makes no row out of what is none.
pub proof fn law_margin_moves_a_row(m: Seq<char>, l: Seq<char>)
    requires
        blanks(m),
        !(exists|b: Seq<char>| l == #[trigger] ("NAME"@ + b)),
        !(exists|b: Seq<char>| l == #[trigger] ("-"@ + b)),
    ensures
        table_row(m + l) == (match table_row(l) {
            Some(r) => Some(moved(r, m.len())),
            None => None::<Row>,
        }),
{
    let s = m + l;
    reveal_strlit("state:");
    reveal_strlit("status:");
    reveal_strlit("action:");
    reveal_strlit("see:");
    reveal_strlit("config:");
    reveal_strlit("NAME");
    reveal_strlit("-");
    lemma_margin_pieces(m, l, "state:"@);
    lemma_margin_pieces(m, l, "status:"@);
    lemma_margin_pieces(m, l, "action:"@);
    lemma_margin_pieces(m, l, "see:"@);
    lemma_margin_pieces(m, l, "config:"@);
    lemma_title(l);
    lemma_title(s);
    if m.len() == 0 {
        assert(s == l);
    } else {
        assert(is_blank(m[0]));
        assert(s[0] == m[0]);
        assert forall|b: Seq<char>| s != #[trigger] ("NAME"@ + b) by {
            assert(("NAME"@ + b)[0] == 'N');
        }
        assert forall|b: Seq<char>| s != #[trigger] ("-"@ + b) by {
            assert(("-"@ + b)[0] == '-');
        }
    }
    assert(outside_table(s) <==> outside_table(l));
    lemma_margin_percentage(m, l);
    lemma_prefix_len(l, space());
    let n = prefix_len(l, space());
    assert forall|i: int| 0 <= i < m.len() + n implies space()(#[trigger] s[i]) by {
        if i < m.len() {
            assert(is_blank(m[i]));
        } else {
            assert(s[i] == l[i - m.len()]);
        }
    }
    if m.len() + n < s.len() {
        assert(s[(m.len() + n) as int] == l[n as int]);
    }
    lemma_prefix_len_is(s, space(), m.len() + n);
    assert(s.skip((m.len() + n) as int) == l.skip(n as int));
    assert(s.take((m.len() + n) as int) == m + l.take(n as int));
    lemma_bytes_concat(m, l.take(n as int));
    lemma_blank_bytes(m);
}

/// Lines with the margin `m` before each.
pub open spec fn indented(ls: Seq<Seq<char>>, m: Seq<char>) -> Seq<Seq<char>> {
    Seq::new(ls.len(), |i: int| m + ls[i])
}

/// Rows that stand further to the right by `by`.
pub open spec fn all_moved(rows: Seq<Row>, by: nat) -> Seq<Row> {
    Seq::new(rows.len(), |i: int| moved(rows[i], by))
}

proof fn lemma_deeper_moved(rows: Seq<Row>, indent: nat, by: nat)
    ensures
        deeper(all_moved(rows, by), indent + by) == deeper(rows, indent),
    decreases rows.len(),
{
    if rows.len() > 0 {
        assert(all_moved(rows, by).skip(1) == all_moved(rows.skip(1), by));
        lemma_deeper_moved(rows.skip(1), indent, by);
    }
}

proof fn lemma_outline_moved(rows: Seq<Row>, by: nat)
    ensures
        outline(all_moved(rows, by)) == outline(rows),
    decreases rows.len(),
{
    if rows.len() > 0 {
        let far = all_moved(rows, by);
        let n = deeper(rows.skip(1), rows[0].indent);
        assert(far.skip(1) == all_moved(rows.skip(1), by));
        lemma_deeper_moved(rows.skip(1), rows[0].indent, by);
        if n < rows.len() {
            let k = 1 + n as int;
            assert(far.subrange(1, k) == all_moved(rows.subrange(1, k), by));
            assert(far.skip(k) == all_moved(rows.skip(k), by));
            lemma_outline_moved(rows.subrange(1, k), by);
            lemma_outline_moved(rows.skip(k), by);
        }
    } else {
        assert(all_moved(rows, by) =~= rows);
    }
}

/// The tree of a table depends on how far its rows stand to the right of each
/// other, not on where the table begins.
pub proof fn law_margin_keeps_the_tree(rows: Seq<Row>, by: nat)
    ensures
        table_tree(all_moved(rows, by)) == table_tree(rows),
{
    if rows.len() > 0 {
        assert(all_moved(rows, by).skip(1) == all_moved(rows.skip(1), by));
        lemma_outline_moved(rows.skip(1), by);
    }
}

/// Whether `l` is a line of a table: it ends in ink, belongs to no other section and
/// is no heading.
pub open spec fn is_table_line(l: Seq<char>) -> bool {
    &&& l.len() > 0
    &&& graphic(l.last())
    &&& !holds(l, "scan:"@)
    &&& !holds(l, "errors:"@)
    &&& !(exists|b: Seq<char>| l == #[trigger] ("NAME"@ + b))
    &&& !(exists|b: Seq<char>| l == #[trigger] ("-"@ + b))
}

proof fn lemma_table_line(st: StatusText, m: Seq<char>, l: Seq<char>)
    requires
        !st.in_errors,
        blanks(m),
        is_table_line(l),
    ensures
        !status_line(st, m + l).in_errors,
        status_line(st, m + l).rows == (match table_row(l) {
            Some(r) => st.rows.push(moved(r, m.len())),
            None => st.rows,
        }),
{
    let s = m + l;
    assert(s.last() == l.last());
    assert(s + Seq::<char>::empty() == s);
    lemma_blank_suffix(s, Seq::empty());
    reveal_strlit("scan:");
    reveal_strlit("errors:");
    lemma_margin_pieces(m, l, "scan:"@);
    lemma_margin_pieces(m, l, "errors:"@);
    lemma_no_scan(s);
    law_pieces_are_found(s, "errors:"@);
    assert(occurs_at(s, "errors:"@, 0) ==> contains(s, "errors:"@));
    law_margin_moves_a_row(m, l);
    lemma_prefix_len(s, space());
    let n = prefix_len(s, space());
    if n == s.len() {
        assert(space()(s[s.len() - 1]));
    }
    assert(trim_start(s).len() > 0);
}

/// Putting the same blanks or tabs before every line of a table changes no row of
/// it and keeps its tree.
pub proof fn law_indented_table_is_the_same(ls: Seq<Seq<char>>, m: Seq<char>)
    requires
        blanks(m),
        forall|i: int| 0 <= i < ls.len() ==> is_table_line(#[trigger] ls[i]),
    ensures
        status_text(indented(ls, m)).rows == all_moved(status_text(ls).rows, m.len()),
        table_tree(status_text(indented(ls, m)).rows) == table_tree(status_text(ls).rows),
{
    lemma_indented(ls, m);
    law_margin_keeps_the_tree(status_text(ls).rows, m.len());
}

proof fn lemma_indented(ls: Seq<Seq<char>>, m: Seq<char>)
    requires
        blanks(m),
        forall|i: int| 0 <= i < ls.len() ==> is_table_line(#[trigger] ls[i]),
    ensures
        !status_text(ls).in_errors,
        !status_text(indented(ls, m)).in_errors,
        status_text(indented(ls, m)).rows == all_moved(status_text(ls).rows, m.len()),
    decreases ls.len(),
{
    let far = indented(ls, m);
    if ls.len() > 0 {
        let l = ls[ls.len() - 1];
        let d = ls.drop_last();
        assert forall|i: int| 0 <= i < d.len() implies is_table_line(#[trigger] d[i]) by {
            assert(d[i] == ls[i]);
        }
        lemma_indented(d, m);
        assert(far.drop_last() == indented(d, m));
        assert(far.last() == m + l);
        assert(is_table_line(l));
        lemma_table_line(status_text(indented(d, m)), m, l);
        lemma_table_line(status_text(d), Seq::empty(), l);
        assert(Seq::<char>::empty() + l == l);
        let before = status_text(d).rows;
        if let Some(r) = table_row(l) {
            assert(moved(r, 0) == r);
            assert(all_moved(before, m.len()).push(moved(r, m.len())) == all_moved(
                before.push(r),
                m.len(),
            ));
        }
    } else {
        assert(all_moved(status_text(ls).rows, m.len()) =~= status_text(ls).rows);
        assert(far =~= ls);
    }
}

/// The rows of a tree, those below a node further to the right by `step`.
pub open spec fn printed(n: VdevNode, indent: nat, step: nat) -> Seq<Row>
    decreases n,
{
    seq![Row { indent, row: n.row }] + all_printed(n.children, indent + step, step)
}

/// The rows of some trees, in order.
pub open spec fn all_printed(f: Seq<VdevNode>, indent: nat, step: nat) -> Seq<Row>
    decreases f,
{
    if f.len() == 0 {
        Seq::empty()
    } else {
        printed(f[0], indent, step) + all_printed(f.subrange(1, f.len() as int), indent, step)
    }
}

proof fn lemma_printed(n: VdevNode, indent: nat, step: nat)
    requires
        step > 0,
    ensures
        printed(n, indent, step).len() > 0,
        printed(n, indent, step)[0].indent == indent,
        forall|i: int|
            0 < i < printed(n, indent, step).len() ==> (#[trigger] printed(
                n,
                indent,
                step,
            )[i]).indent > indent,
        outline(printed(n, indent, step)) == seq![n],
    decreases n,
{
    let inner = all_printed(n.children, indent + step, step);
    lemma_all_printed(n.children, indent + step, step);
    let rows = printed(n, indent, step);
    assert forall|i: int| 0 < i < rows.len() implies (#[trigger] rows[i]).indent > indent by {
        assert(rows[i] == inner[i - 1]);
    }
    lemma_outline_single(rows);
    assert(rows.skip(1) == inner);
}

proof fn lemma_all_printed(f: Seq<VdevNode>, indent: nat, step: nat)
    requires
        step > 0,
    ensures
        forall|i: int|
            0 <= i < all_printed(f, indent, step).len() ==> (#[trigger] all_printed(
                f,
                indent,
                step,
            )[i]).indent >= indent,
        f.len() > 0 ==> all_printed(f, indent, step).len() > 0 && all_printed(
            f,
            indent,
            step,
        )[0].indent == indent,
        outline(all_printed(f, indent, step)) == f,
    decreases f,
{
    if f.len() > 0 {
        let rest = f.subrange(1, f.len() as int);
        let a = printed(f[0], indent, step);
        let b = all_printed(rest, indent, step);
        lemma_printed(f[0], indent, step);
        lemma_all_printed(rest, indent, step);
        if rest.len() > 0 {
            lemma_outline_concat(a, b);
        } else {
            assert(b =~= Seq::<Row>::empty());
            assert(a + b == a);
        }
        assert(seq![f[0]] + rest == f);
    } else {
        assert(outline(Seq::<Row>::empty()) =~= f);
    }
}

/// The tree of a table is the tree that was printed, however wide a step to the
/// right is and wherever the table begins.
pub proof fn law_printed_tree_is_read_back(n: VdevNode, indent: nat, step: nat)
    requires
        step > 0,
    ensures
        table_tree(printed(n, indent, step)) == Some(n),
{
    lemma_all_printed(n.children, indent + step, step);
    assert(printed(n, indent, step).skip(1) == all_printed(n.children, indent + step, step));
}

/// Behind the line `errors:` every line but empty ones is kept as it is, and no line
/// is a row any more.
pub proof fn law_error_lines_are_kept(st: StatusText, tail: Seq<char>, l: Seq<char>, end: Seq<char>)
    requires
        tail.len() == 0 || graphic(tail.last()),
        !holds("errors:"@ + tail, "scan:"@),
        l.len() > 0,
        graphic(l.last()),
        blanks(end),
        !holds(l, "scan:"@),
        !(exists|b: Seq<char>| l == #[trigger] ("errors:"@ + b)),
        !(exists|b: Seq<char>| l == #[trigger] ("no known data errors"@ + b)),
    ensures
        ({
            let opened = status_line(st, "errors:"@ + tail);
            &&& opened == StatusText { in_errors: true, ..st }
            &&& status_line(opened, l + end) == StatusText {
                errors: st.errors.push(l),
                in_errors: true,
                ..st
            }
        }),
{
    reveal_strlit("errors:");
    reveal_strlit("scan:");
    reveal_strlit(" scan:");
    let e = "errors:"@ + tail;
    assert(e.last() == (if tail.len() > 0 {
        tail.last()
    } else {
        ':'
    }));
    assert(e + Seq::<char>::empty() == e);
    lemma_blank_suffix(e, Seq::empty());
    lemma_blank_suffix(l, end);
    lemma_no_scan(e);
    lemma_no_scan(l);
    law_pieces_are_found(e, "errors:"@);
    law_pieces_are_found(l, "errors:"@);
    law_pieces_are_found(l, "no known data errors"@);
}

proof fn lemma_held(l: Seq<char>, p: Seq<char>)
    ensures
        contains(l, p) <==> holds(l, p),
{
    law_pieces_are_found(l, p);
}

proof fn lemma_no_scan(l: Seq<char>)
    requires
        !holds(l, "scan:"@),
    ensures
        !starts_with(l, "scan:"@),
        !contains(l, " scan:"@),
{
    lemma_held(l, "scan:"@);
    assert(!contains(l, "scan:"@));
    lemma_later_piece(l);
}

proof fn lemma_later_piece(l: Seq<char>)
    requires
        !contains(l, "scan:"@),
    ensures
        !starts_with(l, "scan:"@),
        !contains(l, " scan:"@),
{
    reveal_strlit("scan:");
    reveal_strlit(" scan:");
    assert forall|i: int| !occurs_at(l, " scan:"@, i) by {
        if occurs_at(l, " scan:"@, i) {
            assert forall|k: int| 0 <= k < 5 implies l[i + 1 + k] == #[trigger] "scan:"@[k] by {
                assert(l.subrange(i, i + 6)[k + 1] == " scan:"@[k + 1]);
            }
            assert(l.subrange(i + 1, i + 6) =~= "scan:"@);
            assert(occurs_at(l, "scan:"@, i + 1));
        }
    }
}

/// Behind the line `errors:` blank lines and the wording that there are none are
/// left out.
pub proof fn law_no_errors_are_made_up(st: StatusText, b: Seq<char>, end: Seq<char>)
    requires
        st.in_errors,
        blanks(end),
        b.len() == 0 || graphic(b.last()),
        !holds("no known data errors"@ + b, "scan:"@),
    ensures
        status_line(st, end) == st,
        status_line(st, "no known data errors"@ + b + end) == st,
{
    reveal_strlit("no known data errors");
    reveal_strlit("scan:");
    reveal_strlit(" scan:");
    reveal_strlit("errors:");
    let none = Seq::<char>::empty();
    lemma_blank_suffix(none, end);
    assert(none + end == end);
    let l = "no known data errors"@ + b;
    assert(l.last() == (if b.len() > 0 {
        b.last()
    } else {
        's'
    }));
    lemma_blank_suffix(l, end);
    lemma_no_scan(l);
    assert(l.subrange(0, 20) =~= "no known data errors"@);
    assert(!starts_with(l, "errors:"@)) by {
        if starts_with(l, "errors:"@) {
            assert(l.subrange(0, 7)[0] == l[0]);
        }
    }
    assert forall|i: int| !occurs_at(none, " scan:"@, i) by {}
}

/// A status text is read line by line, every line of it, from nothing on.
pub proof fn law_status_is_read_line_by_line(ls: Seq<Seq<char>>, l: Seq<char>)
    ensures
        status_text(ls.push(l)) == status_line(status_text(ls), l),
        status_text(Seq::empty()) == (StatusText {
            progress: None,
            in_errors: false,
            errors: Seq::empty(),
            rows: Seq::empty(),
        }),
{
    assert(ls.push(l).drop_last() == ls);
}

proof fn lemma_no_state(ws: Seq<Seq<char>>)
    requires
        forall|i: int| 0 <= i < ws.len() ==> names_no_state(#[trigger] ws[i]),
    ensures
        words_before_state(ws) == ws.len(),
    decreases ws.len(),
{
    if ws.len() > 0 {
        assert(names_no_state(ws[0]));
        law_states_are_read_back(VdevState::Online, ws[0]);
        let t = ws.skip(1);
        assert forall|i: int| 0 <= i < t.len() implies names_no_state(#[trigger] t[i]) by {
            assert(t[i] == ws[i + 1]);
        }
        lemma_no_state(t);
    }
}

/// No row is made up: neither of a heading or the title of a section, nor of a line
/// in which no word is a state, nor of one that starts with its state.
pub proof fn law_no_row_is_made_up(gaps: Seq<Seq<char>>, ws: Seq<Seq<char>>)
    requires
        are_words(ws),
        are_gaps(gaps, ws),
        ws.len() > 0,
    ensures
        is_title(spaced(gaps, ws)) ==> table_row(spaced(gaps, ws)) is None,
        (forall|i: int| 0 <= i < ws.len() ==> names_no_state(#[trigger] ws[i])) ==> table_row(
            spaced(gaps, ws),
        ) is None,
        !names_no_state(ws[0]) ==> table_row(spaced(gaps, ws)) is None,
{
    let l = spaced(gaps, ws);
    let m = gaps[0];
    lemma_title(l);
    lemma_spaced_shape(gaps, ws);
    let t = l.skip(m.len() as int);
    assert(blanks(m));
    assert(t[0] == l[m.len() as int]);
    lemma_blank_prefix(m, t);
    law_words_are_found(gaps, ws, Seq::empty());
    assert(l + Seq::<char>::empty() == l);
    lemma_words_skip(m, t);
    assert(words(trim_start(l)) == ws);
    if forall|i: int| 0 <= i < ws.len() ==> names_no_state(#[trigger] ws[i]) {
        lemma_no_state(ws);
    }
    law_states_are_read_back(VdevState::Online, ws[0]);
}

} // verus!
