//! What `zpool events -v` prints is what is reported.
//!
//! The laws here write an event row by row, in each spelling that occurs, and say
//! what [`crate::collect::events`] makes of it.

use crate::collect::events::{
    class_kind, decimal_or_hex, event_line, event_row, raw_row, with_row, EventBlock,
};
use crate::collect::printed::{lemma_phrase, lemma_spaced_shape, phrase};
use crate::collect::record::is_written;
use crate::model::{EreportView, ErrKind, Timestamp};
use crate::number::{
    all_digits, decimal, digit_value, digits_value, law_written_numbers_read_back, lemma_decimal,
    strip_plus,
};
use crate::text::{
    lemma_prefix_len_is, lemma_suffix_len_is, only, starts_with, strip_all, trim, trim_char, words,
};
use crate::writing::{
    are_gaps, are_words, blanks, graphic, is_blank, is_tight, is_word, law_pieces_are_found,
    law_trimming_takes_blanks_only, law_words_are_found, lemma_words_skip, spaced,
};
use vstd::prelude::*;

verus! {

/// The words of a row: the key and the value with nothing between them, with an
/// equals sign of its own, or with one at the end of the key.
pub open spec fn spelled(key: Seq<char>, value: Seq<Seq<char>>, how: nat) -> Seq<Seq<char>> {
    if how == 0 {
        seq![key] + value
    } else if how == 1 {
        seq![key, seq!['=']] + value
    } else {
        seq![key.push('=')] + value
    }
}

/// Whether the words `value` write the text `v`, in quotes or not.
pub open spec fn writes(value: Seq<Seq<char>>, v: Seq<char>) -> bool {
    &&& value.len() > 0
    &&& are_words(value)
    &&& value[0][0] != '='
    &&& v.len() > 0
    &&& v[0] != '"'
    &&& v.last() != '"'
    &&& phrase(value) == v || phrase(value) == seq!['"'] + v + seq!['"']
}

proof fn lemma_phrase_tight(ws: Seq<Seq<char>>)
    requires
        ws.len() > 0,
        are_words(ws),
    ensures
        is_tight(phrase(ws)),
        phrase(ws)[0] == ws[0][0],
    decreases ws.len(),
{
    assert(is_word(ws[0]));
    assert(graphic(ws[0][0]));
    assert(graphic(ws[0][ws[0].len() - 1]));
    if ws.len() > 1 {
        let t = ws.skip(1);
        assert forall|i: int| 0 <= i < t.len() implies is_word(#[trigger] t[i]) by {
            assert(t[i] == ws[i + 1]);
        }
        lemma_phrase_tight(t);
        assert(phrase(ws).last() == phrase(t).last());
    }
}

proof fn lemma_unquoted(v: Seq<char>)
    requires
        v.len() > 0,
        v[0] != '"',
        v.last() != '"',
    ensures
        trim_char(v, '"') == v,
        trim_char(seq!['"'] + v + seq!['"'], '"') == v,
{
    let q = only('"');
    lemma_prefix_len_is(v, q, 0);
    assert(v.skip(0) == v);
    lemma_suffix_len_is(v, q, 0);
    assert(v.take(v.len() as int) == v);
    let s = seq!['"'] + v + seq!['"'];
    assert(s[0] == '"');
    assert(s[1] == v[0]);
    lemma_prefix_len_is(s, q, 1);
    let t = v + seq!['"'];
    assert(s.skip(1) == t);
    assert(t[t.len() - 1] == '"');
    assert(t[t.len() - 2] == v.last());
    lemma_suffix_len_is(t, q, 1);
    assert(t.take(t.len() - 1) == v);
}

proof fn lemma_trim_tight(v: Seq<char>)
    requires
        is_tight(v),
    ensures
        trim(v) == v,
        trim(seq![' '] + v) == v,
{
    let none = Seq::<char>::empty();
    law_trimming_takes_blanks_only(none, v, none);
    assert(none + v + none == v);
    let b = seq![' '];
    assert forall|i: int| 0 <= i < b.len() implies is_blank(#[trigger] b[i]) by {}
    law_trimming_takes_blanks_only(b, v, none);
    assert(b + v + none == b + v);
}

proof fn lemma_raw_row(key: Seq<char>, value: Seq<Seq<char>>, how: nat)
    requires
        is_word(key),
        key.last() != '=',
        value.len() > 0,
        are_words(value),
        value[0][0] != '=',
    ensures
        raw_row(spelled(key, value, how)) == (key, phrase(value)),
{
    let ws = spelled(key, value, how);
    let v = phrase(value);
    lemma_phrase(value);
    lemma_phrase_tight(value);
    lemma_trim_tight(v);
    if how == 0 {
        assert(ws.skip(1) == value);
    } else if how == 1 {
        let u = seq![seq!['=']] + value;
        assert(ws.skip(1) == u);
        lemma_phrase(u);
        assert(u.skip(1) == value);
        assert(phrase(u) == seq!['='] + seq![' '] + v);
        assert(phrase(u).skip(1) == seq![' '] + v);
    } else {
        assert(ws.skip(1) == value);
        assert(key.push('=').drop_last() == key);
    }
}

/// A row is read whatever its spelling: with or without an equals sign, with or
/// without quotes around the value, with or without the prefix of the payload before
/// the key, and with any blanks. It adds its value under its key and reports
/// nothing.
pub proof fn law_event_row_is_read(
    b: EventBlock,
    l: Seq<char>,
    key: Seq<char>,
    prefixed: bool,
    value: Seq<Seq<char>>,
    how: nat,
    v: Seq<char>,
    now: Timestamp,
)
    requires
        is_word(key),
        key.last() != '=',
        !(exists|r: Seq<char>| key == #[trigger] ("zio_"@ + r)),
        writes(value, v),
        is_written(
            l,
            spelled(
                if prefixed {
                    "zio_"@ + key
                } else {
                    key
                },
                value,
                how,
            ),
        ),
    ensures
        event_line(b, l, now) == (with_row(b, key, v), None::<EreportView>),
{
    reveal_strlit("zio_");
    let p = "zio_"@;
    let name = if prefixed {
        p + key
    } else {
        key
    };
    let ws = spelled(name, value, how);
    assert forall|i: int| 0 <= i < name.len() implies graphic(#[trigger] name[i]) by {
        if prefixed {
            if i >= 4 {
                assert(name[i] == key[i - 4]);
                assert(graphic(key[i - 4]));
            } else {
                assert(name[i] == p[i]);
            }
        } else {
            assert(graphic(key[i]));
        }
    }
    assert(name.last() == key.last());
    lemma_raw_row(name, value, how);
    law_pieces_are_found(key, p);
    assert(!starts_with(key, p));
    assert(strip_all(key, p) == key);
    if prefixed {
        law_pieces_are_found(name, p);
        assert(name.skip(4) == key);
        assert(strip_all(name, p) == strip_all(name.skip(p.len() as int), p));
    }
    lemma_unquoted(v);
    assert(event_row(ws) == (key, v));
    let (gaps, tail) = choose|gaps: Seq<Seq<char>>, tail: Seq<char>|
        are_gaps(gaps, ws) && blanks(tail) && l == #[trigger] (spaced(gaps, ws) + tail);
    lemma_spaced_shape(gaps, ws);
    let m = gaps[0];
    let t = spaced(gaps, ws).skip(m.len() as int);
    assert(t[0] == spaced(gaps, ws)[m.len() as int]);
    assert(t.last() == spaced(gaps, ws).last());
    assert(l == m + t + tail);
    law_trimming_takes_blanks_only(m, t, tail);
    let none = Seq::<char>::empty();
    law_words_are_found(gaps, ws, none);
    assert(spaced(gaps, ws) + none == m + t);
    lemma_words_skip(m, t);
    assert(words(t) == ws);
}

/// What a row adds to a block, key by key: each known key sets its own field and
/// leaves the others, and an unknown key changes nothing.
pub proof fn law_rows_fill_their_fields(b: EventBlock, key: Seq<char>, v: Seq<char>)
    ensures
        with_row(b, "class"@, v) == (EventBlock { class: Some(v), ..b }),
        with_row(b, "vdev_path"@, v) == (EventBlock { path: Some(v), ..b }),
        with_row(b, "vdev_guid"@, v) == (EventBlock { guid: decimal_or_hex(v), ..b }),
        with_row(b, "offset"@, v) == (EventBlock { offset: decimal_or_hex(v), ..b }),
        with_row(b, "io_offset"@, v) == (EventBlock { offset: decimal_or_hex(v), ..b }),
        with_row(b, "size"@, v) == (EventBlock { size: decimal_or_hex(v), ..b }),
        with_row(b, "io_size"@, v) == (EventBlock { size: decimal_or_hex(v), ..b }),
        key != "class"@ && key != "vdev_path"@ && key != "vdev_guid"@ && key != "offset"@ && key
            != "io_offset"@ && key != "size"@ && key != "io_size"@ ==> with_row(b, key, v) == b,
{
    reveal_strlit("offset");
    reveal_strlit("io_offset");
    reveal_strlit("size");
    reveal_strlit("io_size");
    reveal_strlit("class");
    reveal_strlit("vdev_path");
    reveal_strlit("vdev_guid");
    assert("size"@.len() == 4 && "io_size"@.len() == 7 && "class"@.len() == 5);
    assert("offset"@.len() == 6 && "io_offset"@.len() == 9);
    assert("vdev_path"@.len() == 9 && "vdev_guid"@.len() == 9);
    assert("io_offset"@[0] == 'i' && "vdev_path"@[0] == 'v' && "vdev_guid"@[0] == 'v');
    assert("vdev_path"@[5] == 'p' && "vdev_guid"@[5] == 'g');
}

/// The character of a hexadecimal digit.
pub open spec fn hex_char(d: nat) -> char {
    if d < 10 {
        (('0' as u32) + d) as char
    } else {
        (('a' as u32) + d - 10) as char
    }
}

/// `n` in hexadecimal.
pub open spec fn hexadecimal(n: nat) -> Seq<char>
    decreases n,
{
    if n < 16 {
        seq![hex_char(n)]
    } else {
        hexadecimal(n / 16).push(hex_char(n % 16))
    }
}

proof fn lemma_hexadecimal(n: nat)
    ensures
        hexadecimal(n).len() > 0,
        all_digits(hexadecimal(n), 16),
        digits_value(hexadecimal(n), 16) == n,
    decreases n,
{
    let d = hex_char(n % 16);
    assert(digit_value(d) == n % 16);
    if n < 16 {
        let s = hexadecimal(n);
        assert(s == seq![d]);
        assert(s.drop_last() =~= Seq::<char>::empty());
        assert(digits_value(s.drop_last(), 16) == 0);
        assert(digits_value(s, 16) == digits_value(s.drop_last(), 16) * 16 + digit_value(s.last()));
    } else {
        lemma_hexadecimal(n / 16);
        let s = hexadecimal(n / 16);
        assert(s.push(d).drop_last() == s);
        assert forall|i: int| 0 <= i < s.push(d).len() implies digit_value(
            #[trigger] s.push(d)[i],
        ) < 16 by {
            if i < s.len() {
                assert(s.push(d)[i] == s[i]);
            }
        }
    }
}

/// The numbers of an event are read in decimal and, behind `0x`, in hexadecimal.
pub proof fn law_event_numbers_are_read(n: u64)
    ensures
        decimal_or_hex(decimal(n as nat)) == Some(n),
        decimal_or_hex("0x"@ + hexadecimal(n as nat)) == Some(n),
{
    reveal_strlit("0x");
    law_written_numbers_read_back(n);
    lemma_decimal(n as nat);
    let d = decimal(n as nat);
    let p = "0x"@;
    if starts_with(d, p) {
        assert(d.subrange(0, 2)[1] == d[1]);
        assert(d[1] == 'x');
        assert(digit_value(d[1]) < 10);
    }
    lemma_hexadecimal(n as nat);
    let h = hexadecimal(n as nat);
    let s = p + h;
    assert(s.subrange(0, 2) == p);
    assert(s.skip(2) == h);
    assert(digit_value(h[0]) < 16);
    assert(strip_plus(h) == h);
}

/// The kind of an event goes by the end of its class: a checksum error, an I/O
/// error, or nothing of interest.
pub proof fn law_kind_goes_by_the_end_of_the_class(class: Seq<char>)
    ensures
        ({
            let checksum = exists|a: Seq<char>| class == #[trigger] (a + "checksum"@);
            let io = exists|a: Seq<char>| class == #[trigger] (a + ".zfs.io"@);
            &&& class_kind(class) == Some(ErrKind::Checksum) <==> checksum
            &&& class_kind(class) == Some(ErrKind::IoRead) <==> !checksum && io
            &&& class_kind(class) is None <==> !checksum && !io
        }),
{
    law_pieces_are_found(class, "checksum"@);
    law_pieces_are_found(class, ".zfs.io"@);
}

/// A blank line ends the block: an event of interest is reported with everything
/// that its rows said, zeros and an empty path where they said nothing, and the time
/// at which it was read.
pub proof fn law_block_is_reported(b: EventBlock, line: Seq<char>, now: Timestamp)
    requires
        blanks(line),
    ensures
        event_line(b, line, now).0 == (EventBlock {
            class: None,
            path: None,
            guid: None,
            offset: None,
            size: None,
        }),
        event_line(b, line, now).1 is Some <==> (b.class matches Some(c) && ((exists|a: Seq<char>|
            c == #[trigger] (a + "checksum"@)) || (exists|a: Seq<char>| c == #[trigger] (a
            + ".zfs.io"@)))),
        event_line(b, line, now).1 matches Some(e) ==> {
            &&& e.kind == ErrKind::Checksum <==> (b.class matches Some(c) && exists|a: Seq<char>|
                c == #[trigger] (a + "checksum"@))
            &&& b.path matches Some(p) ==> e.vdev_path == p
            &&& b.path is None ==> e.vdev_path.len() == 0
            &&& b.guid matches Some(n) ==> e.vdev_guid == n
            &&& b.guid is None ==> e.vdev_guid == 0
            &&& b.offset matches Some(n) ==> e.io_offset == n
            &&& b.offset is None ==> e.io_offset == 0
            &&& b.size matches Some(n) ==> e.io_size == n
            &&& b.size is None ==> e.io_size == 0
            &&& e.ts == now
        },
{
    let none = Seq::<char>::empty();
    law_trimming_takes_blanks_only(line, none, none);
    assert(line + none + none == line);
    if let Some(c) = b.class {
        law_kind_goes_by_the_end_of_the_class(c);
    }
}

} // verus!
