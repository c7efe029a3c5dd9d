//! Ereports as `zpool events -v` prints them.
//!
//! One event is a block of rows that a blank line ends. The rows are
//! `key value` or `key = value`, depending on the build; the payload fields
//! may carry the prefix `zio_`, and strings may be quoted.

use crate::model::{reports, Ereport, EreportView, ErrKind, Timestamp, SECOND_NANOS};
use crate::number::{parse_radix, parse_radix_of, parse_u64, parse_u64_of};
use crate::text::{
    chars, ends_with, ends_with_text, ink, is_space, is_text, join, join_words, lemma_prefix_len,
    lemma_suffix_len, prefix_len, space, starts_with, starts_with_text, string_of, strip_all,
    strip_all_of, suffix_len, texts, trim, trim_char, trim_char_of, trim_of, trim_start, words,
    words_of,
};
use std::collections::VecDeque;
use std::time::{SystemTime, UNIX_EPOCH};
use vstd::prelude::*;
use vstd::slice::slice_subrange;

verus! {

/// How many ereports a buffer holds.
pub const BUFFER_CAP: usize = 100;

/// The number that `v` writes, in decimal or, behind `0x`, in hexadecimal.
pub open spec fn decimal_or_hex(v: Seq<char>) -> Option<u64> {
    if starts_with(v, "0x"@) {
        parse_radix(v.skip(2), 16)
    } else {
        parse_u64(v)
    }
}

fn parse_u64_maybe_hex(v: &[char]) -> (r: Option<u64>)
    ensures
        r == decimal_or_hex(v@),
{
    if starts_with_text(v, "0x") {
        proof {
            reveal_strlit("0x");
            assert(v@.subrange(2, v@.len() as int) == v@.skip(2));
        }
        let n: usize = v.len();
        parse_radix_of(slice_subrange(v, 2, n), 16)
    } else {
        parse_u64_of(v)
    }
}

/// What has been read of the current block.
pub struct EventBlock {
    pub class: Option<Seq<char>>,
    pub path: Option<Seq<char>>,
    pub guid: Option<u64>,
    pub offset: Option<u64>,
    pub size: Option<u64>,
}

/// The key and the value of a row, as they are printed: an equals sign between
/// them belongs to neither.
pub open spec fn raw_row(ws: Seq<Seq<char>>) -> (Seq<char>, Seq<char>) {
    let key = ws[0];
    let value = join(ws.skip(1), seq![' ']);
    if value.len() > 0 && value[0] == '=' {
        (key, trim(value.skip(1)))
    } else if key.last() == '=' {
        (key.drop_last(), value)
    } else {
        (key, value)
    }
}

/// The key and the value of a row: without the prefix `zio_` and without the
/// quotes around the value.
pub open spec fn event_row(ws: Seq<Seq<char>>) -> (Seq<char>, Seq<char>) {
    let (key, value) = raw_row(ws);
    (strip_all(key, "zio_"@), trim_char(value, '"'))
}

/// What one row adds to a block. Unknown keys add nothing.
pub open spec fn with_row(b: EventBlock, key: Seq<char>, value: Seq<char>) -> EventBlock {
    if key == "class"@ {
        EventBlock { class: Some(value), ..b }
    } else if key == "vdev_path"@ {
        EventBlock { path: Some(value), ..b }
    } else if key == "vdev_guid"@ {
        EventBlock { guid: decimal_or_hex(value), ..b }
    } else if key == "offset"@ || key == "io_offset"@ {
        EventBlock { offset: decimal_or_hex(value), ..b }
    } else if key == "size"@ || key == "io_size"@ {
        EventBlock { size: decimal_or_hex(value), ..b }
    } else {
        b
    }
}

/// The kind of error that an event class reports; none for classes of no
/// interest. The class does not tell reads from writes, so every I/O error
/// counts as a read.
pub open spec fn class_kind(class: Seq<char>) -> Option<ErrKind> {
    if ends_with(class, "checksum"@) {
        Some(ErrKind::Checksum)
    } else if ends_with(class, ".zfs.io"@) {
        Some(ErrKind::IoRead)
    } else {
        None
    }
}

/// A block of which nothing has been read.
pub open spec fn blank_block() -> EventBlock {
    EventBlock { class: None, path: None, guid: None, offset: None, size: None }
}

/// The value that was read, or the one to use in its place.
pub open spec fn read_or<T>(v: Option<T>, otherwise: T) -> T {
    match v {
        Some(x) => x,
        None => otherwise,
    }
}

/// What the end of a block gives: an ereport where its class is of interest, and
/// in any case a fresh block.
pub open spec fn block_end(b: EventBlock, now: Timestamp) -> (EventBlock, Option<EreportView>) {
    match b.class {
        None => (blank_block(), None),
        Some(class) => match class_kind(class) {
            None => (blank_block(), None),
            Some(kind) => (
                blank_block(),
                Some(
                    EreportView {
                        vdev_path: read_or(b.path, Seq::empty()),
                        vdev_guid: read_or(b.guid, 0),
                        io_offset: read_or(b.offset, 0),
                        io_size: read_or(b.size, 0),
                        kind,
                        ts: now,
                    },
                ),
            ),
        },
    }
}

/// What one line gives: a blank line ends the block, any other is a row of it.
pub open spec fn event_line(b: EventBlock, line: Seq<char>, now: Timestamp) -> (
    EventBlock,
    Option<EreportView>,
) {
    let t = trim(line);
    if t.len() == 0 {
        block_end(b, now)
    } else {
        let (key, value) = event_row(words(t));
        (with_row(b, key, value), None)
    }
}

/// What an ereport that may be missing says.
pub open spec fn report_view(r: Option<Ereport>) -> Option<EreportView> {
    match r {
        Some(e) => Some(e@),
        None => None,
    }
}

/// What a text that may be missing says.
pub open spec fn text_view(s: Option<String>) -> Option<Seq<char>> {
    match s {
        Some(t) => Some(t@),
        None => None,
    }
}

/// `SystemTime::now` of the standard library: how far the system clock is from the
/// Unix epoch, in seconds and nanoseconds, and whether it stands before the epoch.
/// Nothing is claimed of the value but that the nanoseconds are less than a second.
#[verifier::external_body]
fn clock() -> (r: (bool, u64, u32))
    ensures
        r.2 < SECOND_NANOS,
{
    match SystemTime::now().duration_since(UNIX_EPOCH) {
        Ok(d) => (false, d.as_secs(), d.subsec_nanos()),
        Err(e) => (true, e.duration().as_secs(), e.duration().subsec_nanos()),
    }
}

/// Incremental parser that is fed one line at a time.
pub struct EventBlockParser {
    pub cur_class: Option<String>,
    pub cur_path: Option<String>,
    pub cur_guid: Option<u64>,
    pub cur_offset: Option<u64>,
    pub cur_size: Option<u64>,
}

impl View for EventBlockParser {
    type V = EventBlock;

    open spec fn view(&self) -> EventBlock {
        EventBlock {
            class: text_view(self.cur_class),
            path: text_view(self.cur_path),
            guid: self.cur_guid,
            offset: self.cur_offset,
            size: self.cur_size,
        }
    }
}

impl Default for EventBlockParser {
    fn default() -> (p: Self)
        ensures
            p@ == blank_block(),
    {
        EventBlockParser::new()
    }
}

impl EventBlockParser {
    pub fn new() -> (p: Self)
        ensures
            p@ == blank_block(),
    {
        EventBlockParser {
            cur_class: None,
            cur_path: None,
            cur_guid: None,
            cur_offset: None,
            cur_size: None,
        }
    }

    /// Feeds one line, at the present time; returns a finished [`Ereport`]
    /// when a block completes.
    pub fn feed_line(&mut self, line: &str) -> (r: Option<Ereport>)
        ensures
            forall|now: Timestamp|
                final(self)@ == (#[trigger] event_line(old(self)@, line@, now)).0 && (
                r is None <==> event_line(old(self)@, line@, now).1 is None),
            r matches Some(e) ==> event_line(old(self)@, line@, e.ts).1 == Some(e@) && e.ts.nanos
                < SECOND_NANOS,
    {
        let (before, secs, nanos) = clock();
        let now = Timestamp::from_epoch(before, secs, nanos);
        let r = self.feed_line_at(line, now);
        proof {
            let given = event_line(old(self)@, line@, now);
            assert forall|other: Timestamp|
                self@ == (#[trigger] event_line(old(self)@, line@, other)).0 && (r is None
                    <==> event_line(old(self)@, line@, other).1 is None) by {
                assert(event_line(old(self)@, line@, other).0 == given.0);
            }
        }
        r
    }

    /// Feeds one line that was read at the time `now`.
    pub fn feed_line_at(&mut self, line: &str, now: Timestamp) -> (r: Option<Ereport>)
        ensures
            (final(self)@, report_view(r)) == event_line(old(self)@, line@, now),
    {
        let all: Vec<char> = chars(line);
        let trimmed = trim_of(all.as_slice());
        if trimmed.len() == 0 {
            return self.flush(now);
        }
        let tokens: Vec<&[char]> = words_of(trimmed);
        let ghost ws = texts(tokens@);
        proof {
            lemma_trimmed_has_words(line@);
            assert(ws[0] == tokens@[0]@);
        }
        let joined: Vec<char> = join_words(&tokens, 1, tokens.len());
        assert(ws.subrange(1, ws.len() as int) == ws.skip(1));
        let mut key = tokens[0];
        let mut value = joined.as_slice();
        if value.len() > 0 && value[0] == '=' {
            let n: usize = value.len();
            let tail = slice_subrange(value, 1, n);
            assert(tail@ == value@.skip(1));
            value = trim_of(tail);
        } else if key[key.len() - 1] == '=' {
            let n: usize = key.len();
            let head = slice_subrange(key, 0, n - 1);
            assert(head@ == key@.drop_last());
            key = head;
        }
        let key = strip_all_of(key, "zio_");
        let value = trim_char_of(value, '"');
        assert((key@, value@) == event_row(ws));
        if is_text(key, "class") {
            self.cur_class = Some(string_of(value));
        } else if is_text(key, "vdev_path") {
            self.cur_path = Some(string_of(value));
        } else if is_text(key, "vdev_guid") {
            self.cur_guid = parse_u64_maybe_hex(value);
        } else if is_text(key, "offset") || is_text(key, "io_offset") {
            self.cur_offset = parse_u64_maybe_hex(value);
        } else if is_text(key, "size") || is_text(key, "io_size") {
            self.cur_size = parse_u64_maybe_hex(value);
        }
        None
    }

    fn flush(&mut self, now: Timestamp) -> (r: Option<Ereport>)
        ensures
            (final(self)@, report_view(r)) == block_end(old(self)@, now),
    {
        let class = self.cur_class.take();
        let path = self.cur_path.take();
        let guid = self.cur_guid.take();
        let offset = self.cur_offset.take();
        let size = self.cur_size.take();
        let class = match class {
            Some(class) => class,
            None => {
                return None;
            },
        };
        let name: Vec<char> = chars(class.as_str());
        let kind = if ends_with_text(name.as_slice(), "checksum") {
            ErrKind::Checksum
        } else if ends_with_text(name.as_slice(), ".zfs.io") {
            ErrKind::IoRead
        } else {
            return None;
        };
        let empty = String::new();
        assert(empty@ =~= Seq::<char>::empty());
        Some(
            Ereport {
                vdev_path: match path {
                    Some(p) => p,
                    None => empty,
                },
                vdev_guid: match guid {
                    Some(n) => n,
                    None => 0,
                },
                io_offset: match offset {
                    Some(n) => n,
                    None => 0,
                },
                io_size: match size {
                    Some(n) => n,
                    None => 0,
                },
                kind,
                ts: now,
            },
        )
    }
}

/// A text that is not blank has a first word, which is not empty.
proof fn lemma_trimmed_has_words(line: Seq<char>)
    requires
        trim(line).len() > 0,
    ensures
        words(trim(line)).len() > 0,
        words(trim(line))[0].len() > 0,
{
    let u = trim_start(line);
    let t = trim(line);
    lemma_prefix_len(line, space());
    lemma_suffix_len(u, space());
    assert(t[0] == u[0]);
    assert(u[0] == line[prefix_len(line, space()) as int]);
    assert(!space()(t[0]));
    assert(ink()(t[0]));
    lemma_prefix_len(t, ink());
    assert(prefix_len(t, ink()) > 0);
    assert(words(t)[0] == t.take(prefix_len(t, ink()) as int));
}

/// What a buffer holds after one more ereport: the oldest gives way where the
/// buffer is full.
pub open spec fn buffered(held: Seq<EreportView>, e: EreportView) -> Seq<EreportView> {
    if held.len() >= BUFFER_CAP {
        held.skip(1).push(e)
    } else {
        held.push(e)
    }
}

/// A bounded buffer of ereports, which are drained on the reader's own cadence.
pub struct EventBuffer {
    held: VecDeque<Ereport>,
}

impl View for EventBuffer {
    type V = Seq<EreportView>;

    closed spec fn view(&self) -> Seq<EreportView> {
        reports(self.held@)
    }
}

impl EventBuffer {
    /// A buffer never holds more than its capacity.
    pub open spec fn wf(self) -> bool {
        self@.len() <= BUFFER_CAP
    }

    pub fn new() -> (b: Self)
        ensures
            b.wf(),
            b@ == Seq::<EreportView>::empty(),
    {
        let b = EventBuffer { held: VecDeque::new() };
        assert(b@ =~= Seq::<EreportView>::empty());
        b
    }

    /// Takes one ereport in, at the cost of the oldest one where the buffer is
    /// full.
    pub fn push(&mut self, e: Ereport)
        requires
            old(self).wf(),
        ensures
            final(self).wf(),
            final(self)@ == buffered(old(self)@, e@),
    {
        let ghost before = self.held@;
        if self.held.len() >= BUFFER_CAP {
            let _ = self.held.pop_front();
            assert(reports(self.held@) == reports(before).skip(1));
        }
        self.held.push_back(e);
        assert(self@ == buffered(reports(before), e@));
    }

    /// Hands out everything that the buffer holds, oldest first, and leaves it
    /// empty.
    pub fn drain(&mut self) -> (r: Vec<Ereport>)
        ensures
            reports(r@) == old(self)@,
            final(self)@ == Seq::<EreportView>::empty(),
            final(self).wf(),
    {
        let ghost before = self.held@;
        let mut r: Vec<Ereport> = Vec::new();
        let mut rest: VecDeque<Ereport> = VecDeque::new();
        std::mem::swap(&mut rest, &mut self.held);
        while rest.len() > 0
            invariant
                r@ + rest@ == before,
            decreases rest@.len(),
        {
            let ghost done = r@;
            let ghost left = rest@;
            if let Some(e) = rest.pop_front() {
                r.push(e);
                assert(r@ + rest@ == done + left);
            }
        }
        assert(r@ == before);
        assert(self@ =~= Seq::<EreportView>::empty());
        r
    }
}

/// What a buffer holds after a run of ereports.
pub open spec fn buffered_all(held: Seq<EreportView>, es: Seq<EreportView>) -> Seq<EreportView>
    decreases es.len(),
{
    if es.len() == 0 {
        held
    } else {
        buffered(buffered_all(held, es.drop_last()), es.last())
    }
}

/// Between two drains a buffer keeps the most recent ereports, in order, and
/// loses none while there is room.
pub proof fn law_buffer_keeps_the_latest(es: Seq<EreportView>)
    ensures
        es.len() <= BUFFER_CAP ==> buffered_all(Seq::empty(), es) == es,
        es.len() > BUFFER_CAP ==> buffered_all(Seq::empty(), es) == es.skip(
            es.len() - BUFFER_CAP as int,
        ),
    decreases es.len(),
{
    if es.len() == 0 {
        assert(buffered_all(Seq::empty(), es) =~= es);
    } else {
        law_buffer_keeps_the_latest(es.drop_last());
        let before = es.drop_last();
        let n = es.len() - BUFFER_CAP as int;
        if es.len() <= BUFFER_CAP {
            assert(before.push(es.last()) == es);
        } else if before.len() <= BUFFER_CAP {
            assert(before.skip(1).push(es.last()) == es.skip(n));
        } else {
            assert(before.skip(n - 1).skip(1).push(es.last()) == es.skip(n));
        }
    }
}

/// A block leaves nothing behind, whether or not it is reported: the next one
/// starts afresh.
pub proof fn law_ended_block_is_forgotten(b: EventBlock, line: Seq<char>, now: Timestamp)
    ensures
        trim(line).len() == 0 ==> event_line(b, line, now).0 == blank_block(),
        event_line(b, line, now).1 is Some ==> event_line(b, line, now).0 == blank_block(),
{
}

/// Only a blank line reports an event, only where a class was read, and then
/// exactly where the class is of interest.
pub proof fn law_reports_come_at_block_ends(b: EventBlock, line: Seq<char>, now: Timestamp)
    ensures
        event_line(b, line, now).1 is Some <==> trim(line).len() == 0 && (b.class matches Some(c)
            && class_kind(c) is Some),
{
}

/// Both spellings of a row say the same: `key value` and `key = value`, for a
/// key that ends in no equals sign and a value that starts with none.
pub proof fn law_equals_sign_is_optional(key: Seq<char>, value: Seq<Seq<char>>)
    requires
        key.len() > 0,
        key.last() != '=',
        value.len() > 0,
        forall|i: int| 0 <= i < value.len() ==> is_word(#[trigger] value[i]),
        value[0][0] != '=',
    ensures
        raw_row(seq![key, seq!['=']] + value) == raw_row(seq![key] + value),
{
    let blank = seq![' '];
    let v = join(value, blank);
    let plain = seq![key] + value;
    let spaced = seq![key, seq!['=']] + value;
    assert(plain.skip(1) == value);
    assert(spaced.skip(1) == seq![seq!['=']] + value);
    lemma_join_front(seq!['='], value);
    lemma_join_ends(value);
    assert(join(spaced.skip(1), blank) == seq!['='] + blank + v);
    assert((seq!['='] + blank + v).skip(1) == blank + v);
    lemma_trim_blank(v);
    lemma_trim_nothing(v);
}

/// Whether `w` is a word: something, and nothing of it white space.
pub open spec fn is_word(w: Seq<char>) -> bool {
    w.len() > 0 && forall|j: int| 0 <= j < w.len() ==> !is_space(#[trigger] w[j])
}

/// A text that neither starts nor ends in white space has nothing to trim.
proof fn lemma_trim_nothing(v: Seq<char>)
    requires
        v.len() > 0,
        !is_space(v[0]),
        !is_space(v.last()),
    ensures
        trim(v) == v,
{
    assert(!space()(v[0]) && !space()(v.last()));
    assert(prefix_len(v, space()) == 0);
    assert(v.skip(0) == v);
    assert(suffix_len(v, space()) == 0);
    assert(v.take(v.len() as int) == v);
}

proof fn lemma_join_front(w: Seq<char>, ws: Seq<Seq<char>>)
    requires
        ws.len() > 0,
    ensures
        join(seq![w] + ws, seq![' ']) == w + seq![' '] + join(ws, seq![' ']),
    decreases ws.len(),
{
    let all = seq![w] + ws;
    let blank = seq![' '];
    assert(all.last() == ws.last());
    assert(all.drop_last() == seq![w] + ws.drop_last());
    if ws.len() == 1 {
        assert(all.drop_last() == seq![w]);
        assert(join(all.drop_last(), blank) == w);
    } else {
        lemma_join_front(w, ws.drop_last());
        assert(join(ws, blank) == join(ws.drop_last(), blank) + blank + ws.last());
        assert(join(all, blank) == join(all.drop_last(), blank) + blank + ws.last());
    }
}

proof fn lemma_join_ends(ws: Seq<Seq<char>>)
    requires
        ws.len() > 0,
        forall|i: int| 0 <= i < ws.len() ==> is_word(#[trigger] ws[i]),
    ensures
        join(ws, seq![' ']).len() > 0,
        join(ws, seq![' '])[0] == ws[0][0],
        join(ws, seq![' ']).last() == ws.last().last(),
    decreases ws.len(),
{
    assert(is_word(ws[ws.len() - 1]));
    if ws.len() > 1 {
        let fewer = ws.drop_last();
        assert forall|i: int| 0 <= i < fewer.len() implies is_word(#[trigger] fewer[i]) by {
            assert(fewer[i] == ws[i]);
        }
        lemma_join_ends(fewer);
    }
}

proof fn lemma_trim_blank(v: Seq<char>)
    ensures
        trim(seq![' '] + v) == trim(v),
{
    let s = seq![' '] + v;
    assert(space()(s[0]));
    assert(s.skip(1) == v);
    lemma_prefix_len(v, space());
    let n = prefix_len(v, space()) as int;
    assert(prefix_len(s, space()) == 1 + n);
    assert(s.skip(1 + n) == v.skip(n));
}

/// Both spellings of the payload fields say the same.
pub proof fn law_payload_spellings_agree(b: EventBlock, value: Seq<char>)
    ensures
        with_row(b, strip_all("zio_offset"@, "zio_"@), value) == with_row(b, "io_offset"@, value),
        with_row(b, strip_all("zio_size"@, "zio_"@), value) == with_row(b, "io_size"@, value),
{
    reveal_strlit("zio_");
    reveal_strlit("zio_offset");
    reveal_strlit("zio_size");
    reveal_strlit("offset");
    reveal_strlit("io_offset");
    reveal_strlit("size");
    reveal_strlit("io_size");
    reveal_strlit("class");
    reveal_strlit("vdev_path");
    reveal_strlit("vdev_guid");
    let p = "zio_"@;
    assert("zio_offset"@.subrange(0, 4) =~= p);
    assert("zio_size"@.subrange(0, 4) =~= p);
    assert("zio_offset"@.skip(4) =~= "offset"@);
    assert("zio_size"@.skip(4) =~= "size"@);
    assert("offset"@.subrange(0, 4)[0] == 'o' && p[0] == 'z');
    assert("size"@.subrange(0, 4)[0] == 's');
    assert(!starts_with("offset"@, p));
    assert(!starts_with("size"@, p));
    assert(strip_all("zio_offset"@, p) == strip_all("offset"@, p));
    assert(strip_all("zio_size"@, p) == strip_all("size"@, p));
    assert("io_offset"@[0] == 'i' && "vdev_path"@[0] == 'v' && "vdev_guid"@[0] == 'v');
    assert("size"@.len() == 4 && "io_size"@.len() == 7 && "class"@.len() == 5);
    assert("offset"@.len() == 6 && "io_offset"@.len() == 9);
    assert("vdev_path"@.len() == 9 && "vdev_guid"@.len() == 9);
}

/// A buffer holds the last hundred ereports.
pub proof fn law_buffer_holds_a_hundred(es: Seq<EreportView>)
    ensures
        es.len() <= 100 ==> buffered_all(Seq::empty(), es) == es,
        es.len() > 100 ==> buffered_all(Seq::empty(), es) == es.skip(es.len() - 100),
{
    law_buffer_keeps_the_latest(es);
}

} // verus!
