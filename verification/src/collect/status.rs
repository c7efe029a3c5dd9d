//! Best-effort parser for `zpool status -v`.
//!
//! Human output varies across OpenZFS releases and locales, so every parsed
//! field is fail-soft: an unrecognized line is skipped, a missing field
//! becomes `None`. This parser exists for topology, vdev states, per-vdev
//! error counters and the human progress wording.

use crate::binary64::{of_int, product, rounded, truncated, Binary64};
use crate::decimal::{lower, lower_of, parse_float, parse_float_of};
use crate::model::{
    forest, lemma_children, ScanFunc, ScanState, VdevInfo, VdevNode, VdevRow, VdevState,
};
use crate::number::{parse_u64, parse_u64_of};
use crate::text::{
    byte_len, byte_len_of, chars, contains, contains_text, digit, digit_or_point, find, find_text,
    is_digit_char, is_space, is_space_char, is_text, join, join_words, lemma_prefix_len,
    lemma_prefix_len_is, lemma_suffix_len_is, lines, lines_of, prefix_len, space, starts_with,
    starts_with_text, string_of, strings, strip_all, strip_all_of, suffix_len, texts, trim,
    trim_end, trim_end_of, trim_of, trim_start, trim_start_of, words, words_of,
};
use vstd::prelude::*;
use vstd::slice::slice_subrange;

verus! {

/// The vdev state that a word names.
pub open spec fn state_token(t: Seq<char>) -> Option<VdevState> {
    if t == "ONLINE"@ {
        Some(VdevState::Online)
    } else if t == "DEGRADED"@ {
        Some(VdevState::Degraded)
    } else if t == "FAULTED"@ {
        Some(VdevState::Faulted)
    } else if t == "OFFLINE"@ {
        Some(VdevState::Offline)
    } else if t == "REMOVED"@ {
        Some(VdevState::Removed)
    } else if t == "UNAVAIL"@ {
        Some(VdevState::Unavail)
    } else {
        None
    }
}

fn parse_state_token(token: &[char]) -> (r: Option<VdevState>)
    ensures
        r == state_token(token@),
{
    if is_text(token, "ONLINE") {
        Some(VdevState::Online)
    } else if is_text(token, "DEGRADED") {
        Some(VdevState::Degraded)
    } else if is_text(token, "FAULTED") {
        Some(VdevState::Faulted)
    } else if is_text(token, "OFFLINE") {
        Some(VdevState::Offline)
    } else if is_text(token, "REMOVED") {
        Some(VdevState::Removed)
    } else if is_text(token, "UNAVAIL") {
        Some(VdevState::Unavail)
    } else {
        None
    }
}

/// The scan summary of the `scan:` line of `zpool status -v`.
///
/// Fallback for systems where the per-pool scan kstat is absent.
#[derive(Debug, Clone, Copy, PartialEq)]
pub struct ScanLine {
    pub func: ScanFunc,
    pub state: ScanState,
    pub pct: Option<Binary64>,
    /// Total bytes mentioned in the scan line (`resilvered 6.00G`, `repaired
    /// 128K`), when present.
    pub bytes: Option<u64>,
    /// Errors that a finished scan mentions (`with 3 errors`), when present.
    pub errors: Option<u64>,
}

/// The text of the `scan:` section: what stands behind `scan:`, and the lines
/// that follow up to one that is not indented. `inside` says whether the
/// section has begun.
pub open spec fn section_text(ls: Seq<Seq<char>>, inside: bool) -> Seq<char>
    decreases ls.len(),
{
    if ls.len() == 0 {
        Seq::empty()
    } else {
        let line = ls[0];
        let t = trim(line);
        if starts_with(t, "scan:"@) {
            strip_all(t, "scan:"@) + section_text(ls.skip(1), true)
        } else if !inside {
            section_text(ls.skip(1), false)
        } else if !(line.len() > 0 && is_space(line[0])) && t.len() > 0 {
            Seq::empty()
        } else {
            seq![' '] + t + section_text(ls.skip(1), true)
        }
    }
}

/// The kind of scan that a wording names.
pub open spec fn wording_func(t: Seq<char>) -> Option<ScanFunc> {
    if contains(t, "resilver"@) || contains(t, "rebuilt"@) {
        Some(ScanFunc::Resilver)
    } else if contains(t, "scrub"@) {
        Some(ScanFunc::Scrub)
    } else {
        None
    }
}

/// The state that a wording names.
pub open spec fn wording_state(t: Seq<char>) -> ScanState {
    if contains(t, "in progress"@) {
        ScanState::Scanning
    } else if contains(t, "canceled"@) || contains(t, "cancelled"@) {
        ScanState::Canceled
    } else {
        ScanState::Finished
    }
}

/// What the `scan:` section of `raw` says.
pub open spec fn scan_section(raw: Seq<char>) -> Option<ScanLine> {
    let t = section_text(lines(raw), false);
    if t.len() == 0 {
        None
    } else {
        match wording_func(t) {
            None => None,
            Some(func) => {
                let state = wording_state(t);
                Some(
                    ScanLine {
                        func,
                        state,
                        pct: if state == ScanState::Scanning {
                            progress_pct(t)
                        } else {
                            None
                        },
                        bytes: scan_bytes(t),
                        errors: if state == ScanState::Finished {
                            rebuild_errors(t)
                        } else {
                            None
                        },
                    },
                )
            },
        }
    }
}

/// Parses the `scan:` section, indented continuation lines included. `None`
/// when no scan ran or the wording is unrecognized.
pub fn parse_scan_section(raw: &str) -> (r: Option<ScanLine>)
    ensures
        r == scan_section(raw@),
{
    let all: Vec<char> = chars(raw);
    let ls: Vec<&[char]> = lines_of(all.as_slice());
    let ghost whole = section_text(texts(ls@), false);
    let mut in_scan: bool = false;
    let mut text: Vec<char> = Vec::new();
    let mut i: usize = 0;
    assert(texts(ls@).skip(0) == texts(ls@));
    while i < ls.len()
        invariant
            i <= ls@.len(),
            text@ + section_text(texts(ls@).skip(i as int), in_scan) == whole,
        ensures
            text@ == whole,
        decreases ls@.len() - i,
    {
        let ghost rest = texts(ls@).skip(i as int);
        let ghost tail = texts(ls@).skip(i + 1);
        assert(rest.skip(1) == tail);
        let line = ls[i];
        assert(rest[0] == line@);
        let t = trim_of(line);
        let ghost before = text@;
        if starts_with_text(t, "scan:") {
            let s = strip_all_of(t, "scan:");
            append(&mut text, s);
            in_scan = true;
            assert(before + (s@ + section_text(tail, true)) == (before + s@) + section_text(
                tail,
                true,
            ));
        } else if in_scan {
            if !(line.len() > 0 && is_space_char(line[0])) && t.len() > 0 {
                assert(before + Seq::<char>::empty() == before);
                break;
            }
            text.push(' ');
            append(&mut text, t);
            assert(text@ == before + (seq![' '] + t@));
            assert(before + (seq![' '] + t@ + section_text(tail, true)) == (before + (seq![' ']
                + t@)) + section_text(tail, true));
        }
        i += 1;
        proof {
            if i == ls@.len() {
                assert(section_text(tail, in_scan) =~= Seq::<char>::empty());
                assert(text@ + Seq::<char>::empty() == text@);
            }
        }
    }
    if text.len() == 0 {
        return None;
    }
    let t = text.as_slice();
    let func = if contains_text(t, "resilver") || contains_text(t, "rebuilt") {
        ScanFunc::Resilver
    } else if contains_text(t, "scrub") {
        ScanFunc::Scrub
    } else {
        return None;
    };
    let state = if contains_text(t, "in progress") {
        ScanState::Scanning
    } else if contains_text(t, "canceled") || contains_text(t, "cancelled") {
        ScanState::Canceled
    } else {
        ScanState::Finished
    };
    let pct: Option<Binary64> = if state == ScanState::Scanning {
        progress_pct_of(t)
    } else {
        None
    };
    let bytes: Option<u64> = extract_scan_bytes(t);
    let errors: Option<u64> = if state == ScanState::Finished {
        extract_rebuild_errors(t)
    } else {
        None
    };
    Some(ScanLine { func, state, pct, bytes, errors })
}

fn append(v: &mut Vec<char>, s: &[char])
    ensures
        final(v)@ == old(v)@ + s@,
{
    let ghost before = v@;
    let mut i: usize = 0;
    while i < s.len()
        invariant
            i <= s@.len(),
            v@ == before + s@.take(i as int),
        decreases s@.len() - i,
    {
        v.push(s[i]);
        assert(s@.take(i + 1) == s@.take(i as int).push(s@[i as int]));
        i += 1;
    }
    assert(s@.take(s@.len() as int) == s@);
}

/// What a decimal unit letter is worth. `zpool status` prints sizes in powers
/// of ten.
pub open spec fn si_unit(c: char) -> u64 {
    if c == 'T' || c == 't' {
        1_000_000_000_000
    } else if c == 'G' || c == 'g' {
        1_000_000_000
    } else if c == 'M' || c == 'm' {
        1_000_000
    } else if c == 'K' || c == 'k' {
        1_000
    } else {
        1
    }
}

/// The size that `s` starts with: a number, then, where anything follows,
/// something whose first letter may be a unit.
pub open spec fn leading_size(s: Seq<char>) -> Option<u64> {
    let n = prefix_len(s, digit_or_point()) as int;
    let unit = trim_start(s.skip(n));
    let factor = if unit.len() > 0 {
        si_unit(unit[0])
    } else {
        1
    };
    match parse_float(s.take(n)) {
        Some(v) => Some(truncated(product(v, of_int(factor as nat)))),
        None => None,
    }
}

fn si_unit_of(c: char) -> (m: u64)
    ensures
        m == si_unit(c),
{
    if c == 'T' || c == 't' {
        1_000_000_000_000
    } else if c == 'G' || c == 'g' {
        1_000_000_000
    } else if c == 'M' || c == 'm' {
        1_000_000
    } else if c == 'K' || c == 'k' {
        1_000
    } else {
        1
    }
}

/// Reads a size like `6.00G`, `128K` or `512`.
fn leading_size_of(s: &[char]) -> (r: Option<u64>)
    ensures
        r == leading_size(s@),
{
    let mut n: usize = 0;
    while n < s.len() && (is_digit_char(s[n]) || s[n] == '.')
        invariant
            n <= s@.len(),
            forall|i: int| 0 <= i < n ==> digit_or_point()(#[trigger] s@[i]),
        decreases s@.len() - n,
    {
        n += 1;
    }
    proof {
        lemma_prefix_len_is(s@, digit_or_point(), n as nat);
    }
    let num = slice_subrange(s, 0, n);
    let rest = slice_subrange(s, n, s.len());
    assert(num@ == s@.take(n as int));
    assert(rest@ == s@.skip(n as int));
    let unit = trim_start_of(rest);
    let factor: u64 = if unit.len() > 0 {
        si_unit_of(unit[0])
    } else {
        1
    };
    match parse_float_of(num) {
        Some(v) => Some(v.times(Binary64::from_u64(factor)).truncate()),
        None => None,
    }
}

/// `s` in lower case, as far as it is ASCII.
pub open spec fn lowered(s: Seq<char>) -> Seq<char> {
    Seq::new(s.len(), |i: int| lower(s[i]))
}

/// The size behind the first of the words `resilvered`, `repaired` and
/// `scanned` that occurs.
pub open spec fn scan_bytes(t: Seq<char>) -> Option<u64> {
    let l = lowered(t);
    if let Some(i) = find(l, "resilvered "@) {
        leading_size(t.skip(i + 11))
    } else if let Some(i) = find(l, "repaired "@) {
        leading_size(t.skip(i + 9))
    } else if let Some(i) = find(l, "scanned "@) {
        leading_size(t.skip(i + 8))
    } else {
        None
    }
}

fn extract_scan_bytes(t: &[char]) -> (r: Option<u64>)
    ensures
        r == scan_bytes(t@),
{
    let mut l: Vec<char> = Vec::new();
    let mut i: usize = 0;
    while i < t.len()
        invariant
            i <= t@.len(),
            l@ == lowered(t@).take(i as int),
        decreases t@.len() - i,
    {
        l.push(lower_of(t[i]));
        assert(lowered(t@).take(i + 1) == lowered(t@).take(i as int).push(lowered(t@)[i as int]));
        i += 1;
    }
    assert(lowered(t@).take(t@.len() as int) == lowered(t@));
    proof {
        reveal_strlit("resilvered ");
        reveal_strlit("repaired ");
        reveal_strlit("scanned ");
    }
    if let Some(i) = find_text(l.as_slice(), "resilvered ") {
        assert(t@.subrange(i + 11, t@.len() as int) == t@.skip(i + 11));
        return leading_size_of(slice_subrange(t, i + 11, t.len()));
    }
    if let Some(i) = find_text(l.as_slice(), "repaired ") {
        assert(t@.subrange(i + 9, t@.len() as int) == t@.skip(i + 9));
        return leading_size_of(slice_subrange(t, i + 9, t.len()));
    }
    if let Some(i) = find_text(l.as_slice(), "scanned ") {
        assert(t@.subrange(i + 8, t@.len() as int) == t@.skip(i + 8));
        return leading_size_of(slice_subrange(t, i + 8, t.len()));
    }
    None
}

/// What the wording of a dRAID sequential rebuild says.
///
/// Such wording appears per vdev and is the only signal on builds where the
/// scan kstat is absent after a rebuild.
#[derive(Debug, Clone, Copy, PartialEq)]
pub struct RebuildProbe {
    pub state: ScanState,
    /// Bytes mentioned ("resilvered 2.00G"), when present.
    pub bytes: Option<u64>,
    /// Errors mentioned ("with 3 errors"), when present.
    pub errors: Option<u64>,
}

/// An active rebuild: `resilver (vdev) in progress since ...`.
pub open spec fn rebuild_active(line: Seq<char>) -> bool {
    starts_with(trim(line), "resilver ("@) && contains(trim(line), "in progress"@)
}

/// A complete rebuild: `resilvered (vdev) 2.00G in 0:00:05 with 0 errors ...`.
pub open spec fn rebuild_complete(line: Seq<char>) -> bool {
    starts_with(trim(line), "resilvered ("@)
}

/// A canceled rebuild: `resilver (vdev) canceled on ...`.
pub open spec fn rebuild_canceled(line: Seq<char>) -> bool {
    starts_with(trim(line), "resilver ("@) && contains(trim(line), "canceled"@)
}

/// The size behind the parenthesized vdev name.
pub open spec fn rebuild_bytes(t: Seq<char>) -> Option<u64> {
    match find(t, ")"@) {
        Some(i) => leading_size(trim_start(t.skip(i + 1))),
        None => None,
    }
}

/// The number behind the word `with`.
pub open spec fn rebuild_errors(t: Seq<char>) -> Option<u64> {
    match find(t, " with "@) {
        Some(i) => {
            let rest = t.skip(i + 6);
            parse_u64(rest.take(prefix_len(rest, digit()) as int))
        },
        None => None,
    }
}

/// The first complete rebuild that some lines mention.
pub open spec fn first_complete(ls: Seq<Seq<char>>) -> Option<Seq<char>>
    decreases ls.len(),
{
    if ls.len() == 0 {
        None
    } else if rebuild_complete(ls[0]) {
        Some(trim(ls[0]))
    } else {
        first_complete(ls.skip(1))
    }
}

/// The most significant rebuild that some lines mention: an active one before
/// a complete one before a canceled one.
pub open spec fn rebuild_found(ls: Seq<Seq<char>>) -> Option<RebuildProbe> {
    if exists|i: int| 0 <= i < ls.len() && rebuild_active(#[trigger] ls[i]) {
        Some(RebuildProbe { state: ScanState::Scanning, bytes: None, errors: None })
    } else if let Some(t) = first_complete(ls) {
        Some(
            RebuildProbe {
                state: ScanState::Finished,
                bytes: rebuild_bytes(t),
                errors: rebuild_errors(t),
            },
        )
    } else if exists|i: int| 0 <= i < ls.len() && rebuild_canceled(#[trigger] ls[i]) {
        Some(RebuildProbe { state: ScanState::Canceled, bytes: None, errors: None })
    } else {
        None
    }
}

/// Scans the full status output for dRAID rebuild wording. Returns the most
/// significant find (active > complete > canceled), or `None`.
pub fn probe_rebuild(raw: &str) -> (r: Option<RebuildProbe>)
    ensures
        r == rebuild_found(lines(raw@)),
{
    let all: Vec<char> = chars(raw);
    let ls: Vec<&[char]> = lines_of(all.as_slice());
    let ghost seen = texts(ls@);
    let mut complete: Option<RebuildProbe> = None;
    let mut canceled: bool = false;
    let mut i: usize = 0;
    assert(seen.skip(0) == seen);
    while i < ls.len()
        invariant
            i <= ls@.len(),
            seen == texts(ls@),
            seen == lines(raw@),
            forall|k: int| 0 <= k < i ==> !rebuild_active(#[trigger] seen[k]),
            canceled <==> exists|k: int| 0 <= k < i && rebuild_canceled(#[trigger] seen[k]),
            complete is None ==> first_complete(seen) == first_complete(seen.skip(i as int)),
            complete matches Some(p) ==> (first_complete(seen) matches Some(t) && p == (
            RebuildProbe {
                state: ScanState::Finished,
                bytes: rebuild_bytes(t),
                errors: rebuild_errors(t),
            })),
        decreases ls@.len() - i,
    {
        let t = trim_of(ls[i]);
        assert(seen[i as int] == ls@[i as int]@);
        assert(seen.skip(i as int).skip(1) == seen.skip(i + 1));
        if starts_with_text(t, "resilver (") && contains_text(t, "in progress") {
            assert(rebuild_active(seen[i as int]));
            return Some(RebuildProbe { state: ScanState::Scanning, bytes: None, errors: None });
        }
        if starts_with_text(t, "resilvered (") && complete.is_none() {
            complete =
            Some(
                RebuildProbe {
                    state: ScanState::Finished,
                    bytes: extract_rebuild_bytes(t),
                    errors: extract_rebuild_errors(t),
                },
            );
        }
        if starts_with_text(t, "resilver (") && contains_text(t, "canceled") {
            assert(rebuild_canceled(seen[i as int]));
            canceled = true;
        }
        i += 1;
    }
    if complete.is_some() {
        return complete;
    }
    assert(first_complete(seen.skip(i as int)) is None);
    if canceled {
        Some(RebuildProbe { state: ScanState::Canceled, bytes: None, errors: None })
    } else {
        None
    }
}

fn extract_rebuild_bytes(t: &[char]) -> (r: Option<u64>)
    ensures
        r == rebuild_bytes(t@),
{
    proof {
        reveal_strlit(")");
    }
    match find_text(t, ")") {
        Some(i) => {
            let n: usize = t.len();
            let rest = slice_subrange(t, i + 1, n);
            assert(rest@ == t@.skip(i + 1));
            leading_size_of(trim_start_of(rest))
        },
        None => None,
    }
}

fn extract_rebuild_errors(t: &[char]) -> (r: Option<u64>)
    ensures
        r == rebuild_errors(t@),
{
    proof {
        reveal_strlit(" with ");
    }
    match find_text(t, " with ") {
        Some(i) => {
            let n: usize = t.len();
            let rest = slice_subrange(t, i + 6, n);
            assert(rest@ == t@.skip(i + 6));
            let mut k: usize = 0;
            while k < rest.len() && is_digit_char(rest[k])
                invariant
                    k <= rest@.len(),
                    forall|j: int| 0 <= j < k ==> digit()(#[trigger] rest@[j]),
                decreases rest@.len() - k,
            {
                k += 1;
            }
            proof {
                lemma_prefix_len_is(rest@, digit(), k as nat);
                assert(rest@.subrange(0, k as int) == rest@.take(k as int));
            }
            parse_u64_of(slice_subrange(rest, 0, k))
        },
        None => None,
    }
}

/// The percentage in front of the first `% done`.
pub open spec fn progress_pct(line: Seq<char>) -> Option<Binary64> {
    match find(line, "% done"@) {
        Some(i) => {
            let before = line.take(i);
            let n = suffix_len(before, digit_or_point());
            if n == 0 {
                None
            } else {
                parse_float(before.skip(before.len() - n))
            }
        },
        None => None,
    }
}

/// Extracts the resilver percentage from a `scan:` line.
///
/// Matches wordings like `... 45.2% done`, `(45% done)` and
/// `rebuilt, 12.34% done`.
pub fn extract_progress_pct(line: &str) -> (r: Option<Binary64>)
    ensures
        r == progress_pct(line@),
{
    let all: Vec<char> = chars(line);
    progress_pct_of(all.as_slice())
}

fn progress_pct_of(line: &[char]) -> (r: Option<Binary64>)
    ensures
        r == progress_pct(line@),
{
    match find_text(line, "% done") {
        Some(i) => {
            let before = slice_subrange(line, 0, i);
            assert(before@ == line@.take(i as int));
            let mut k: usize = i;
            while k > 0 && (is_digit_char(before[k - 1]) || before[k - 1] == '.')
                invariant
                    k <= i,
                    before@.len() == i,
                    forall|j: int| k <= j < i ==> digit_or_point()(#[trigger] before@[j]),
                decreases k,
            {
                k -= 1;
            }
            proof {
                lemma_suffix_len_is(before@, digit_or_point(), (i - k) as nat);
                assert(before@.subrange(k as int, i as int) == before@.skip(k as int));
            }
            if k == i {
                None
            } else {
                parse_float_of(slice_subrange(before, k, i))
            }
        },
        None => None,
    }
}

/// What a binary unit letter is worth.
pub open spec fn binary_unit(c: char) -> Option<u64> {
    if c == 'K' || c == 'k' {
        Some(0x400)
    } else if c == 'M' || c == 'm' {
        Some(0x10_0000)
    } else if c == 'G' || c == 'g' {
        Some(0x4000_0000)
    } else if c == 'T' || c == 't' {
        Some(0x100_0000_0000)
    } else if c == 'P' || c == 'p' {
        Some(0x4_0000_0000_0000)
    } else {
        None
    }
}

/// The counter that a word writes: a plain integer, or the abbreviated form
/// of a large one (`8.18K`), scaled back to units.
pub open spec fn counter_token(t: Seq<char>) -> Option<u64> {
    if parse_u64(t) is Some {
        parse_u64(t)
    } else if t.len() == 0 {
        None
    } else {
        match (binary_unit(t.last()), parse_float(t.drop_last())) {
            (Some(m), Some(v)) => Some(rounded(product(v, of_int(m as nat)))),
            _ => None,
        }
    }
}

fn binary_unit_of(c: char) -> (r: Option<u64>)
    ensures
        r == binary_unit(c),
{
    if c == 'K' || c == 'k' {
        Some(0x400)
    } else if c == 'M' || c == 'm' {
        Some(0x10_0000)
    } else if c == 'G' || c == 'g' {
        Some(0x4000_0000)
    } else if c == 'T' || c == 't' {
        Some(0x100_0000_0000)
    } else if c == 'P' || c == 'p' {
        Some(0x4_0000_0000_0000)
    } else {
        None
    }
}

fn parse_counter_token(t: &[char]) -> (r: Option<u64>)
    ensures
        r == counter_token(t@),
{
    if let Some(v) = parse_u64_of(t) {
        return Some(v);
    }
    if t.len() == 0 {
        return None;
    }
    match binary_unit_of(t[t.len() - 1]) {
        Some(m) => {
            let head = slice_subrange(t, 0, t.len() - 1);
            assert(head@ == t@.drop_last());
            match parse_float_of(head) {
                Some(v) => Some(v.times(Binary64::from_u64(m)).round_off()),
                None => None,
            }
        },
        None => None,
    }
}

/// The counters among some words, in order.
pub open spec fn counter_values(ts: Seq<Seq<char>>) -> Seq<u64>
    decreases ts.len(),
{
    if ts.len() == 0 {
        Seq::empty()
    } else {
        match counter_token(ts.last()) {
            Some(v) => counter_values(ts.drop_last()).push(v),
            None => counter_values(ts.drop_last()),
        }
    }
}

/// The READ, WRITE and CKSUM columns of a row: its last three counters,
/// whatever annotations stand behind or between them.
pub open spec fn row_counters(ts: Seq<Seq<char>>) -> (u64, u64, u64) {
    let v = counter_values(ts);
    let n = v.len() as int;
    if n >= 3 {
        (v[n - 3], v[n - 2], v[n - 1])
    } else {
        (0, 0, 0)
    }
}

fn parse_counters(tokens: &Vec<&[char]>, from: usize) -> (r: (u64, u64, u64))
    requires
        from <= tokens@.len(),
    ensures
        r == row_counters(texts(tokens@).skip(from as int)),
{
    let ghost ts = texts(tokens@).skip(from as int);
    let ghost all = counter_values(ts);
    let mut vals: Vec<u64> = Vec::new();
    let mut i: usize = tokens.len();
    assert(ts.take(ts.len() as int) == ts);
    while i > from && vals.len() < 3
        invariant
            from <= i <= tokens@.len(),
            ts == texts(tokens@).skip(from as int),
            all == counter_values(ts),
            vals@.len() <= 3,
            all == counter_values(ts.take(i - from)) + vals@.reverse(),
        decreases i - from,
    {
        let ghost here = ts.take(i - from);
        assert(here.last() == tokens@[i - 1]@);
        assert(here.drop_last() == ts.take(i - from - 1));
        let ghost before = vals@;
        if let Some(v) = parse_counter_token(tokens[i - 1]) {
            vals.push(v);
            assert(vals@.reverse() == seq![v] + before.reverse());
            assert(counter_values(here.drop_last()).push(v) + before.reverse() == counter_values(
                here.drop_last(),
            ) + (seq![v] + before.reverse()));
        }
        i -= 1;
    }
    if vals.len() == 3 {
        (vals[2], vals[1], vals[0])
    } else {
        assert(ts.take(0) =~= Seq::<Seq<char>>::empty());
        (0, 0, 0)
    }
}

/// One row of the vdev table: how far it is indented, and what it says.
pub struct Row {
    pub indent: nat,
    pub row: VdevRow,
}

/// The words of the lines around the vdev table that are no rows of it.
pub open spec fn outside_table(l: Seq<char>) -> bool {
    ||| starts_with(l, "NAME"@)
    ||| starts_with(l, "-"@)
    ||| contains(l, "state:"@)
    ||| contains(l, "status:"@)
    ||| contains(l, "action:"@)
    ||| contains(l, "see:"@)
    ||| contains(l, "config:"@)
}

/// How many words stand before the first one that names a vdev state.
pub open spec fn words_before_state(ws: Seq<Seq<char>>) -> nat
    decreases ws.len(),
{
    if ws.len() == 0 || state_token(ws[0]) is Some {
        0
    } else {
        1 + words_before_state(ws.skip(1))
    }
}

/// The row that a line of the vdev table holds: a name, a state, then the
/// error counters. Anything else holds none.
pub open spec fn table_row(l: Seq<char>) -> Option<Row> {
    let ws = words(trim_start(l));
    let si = words_before_state(ws) as int;
    if outside_table(l) || ws.len() < 2 || si == 0 || si == ws.len() {
        None
    } else {
        let c = row_counters(ws.skip(si + 1));
        let pct = progress_pct(l);
        Some(
            Row {
                indent: byte_len(l.take(prefix_len(l, space()) as int)),
                row: VdevRow {
                    name: join(ws.take(si), seq![' ']),
                    state: state_token(ws[si])->Some_0,
                    is_rebuild_target: pct is Some,
                    read_err: c.0,
                    write_err: c.1,
                    checksum_err: c.2,
                    rebuild_pct: pct,
                },
            },
        )
    }
}

/// What the lines of a status text hold, so far as they have been read.
pub struct StatusText {
    pub progress: Option<Binary64>,
    pub in_errors: bool,
    pub errors: Seq<Seq<char>>,
    pub rows: Seq<Row>,
}

/// What one more line adds. A `scan:` line may show the progress. The
/// `errors:` line opens the last section, whose lines are kept as they are.
/// Any other line may show the progress, where none was seen yet, and may be
/// a row of the vdev table.
pub open spec fn status_line(st: StatusText, raw_line: Seq<char>) -> StatusText {
    let l = trim_end(raw_line);
    let t = trim_start(l);
    if starts_with(l, "scan:"@) || contains(l, " scan:"@) {
        StatusText {
            progress: if progress_pct(l) is Some {
                progress_pct(l)
            } else {
                st.progress
            },
            ..st
        }
    } else if starts_with(l, "errors:"@) {
        StatusText { in_errors: true, ..st }
    } else if st.in_errors {
        if l.len() > 0 && !starts_with(l, "no known data errors"@) {
            StatusText { errors: st.errors.push(l), ..st }
        } else {
            st
        }
    } else if t.len() == 0 {
        st
    } else {
        StatusText {
            progress: if st.progress is None {
                progress_pct(t)
            } else {
                st.progress
            },
            rows: match table_row(l) {
                Some(row) => st.rows.push(row),
                None => st.rows,
            },
            ..st
        }
    }
}

/// What the lines of a status text hold.
pub open spec fn status_text(ls: Seq<Seq<char>>) -> StatusText
    decreases ls.len(),
{
    if ls.len() == 0 {
        StatusText {
            progress: None,
            in_errors: false,
            errors: Seq::empty(),
            rows: Seq::empty(),
        }
    } else {
        status_line(status_text(ls.drop_last()), ls.last())
    }
}

/// How many rows in front are indented deeper than `indent`.
pub open spec fn deeper(rows: Seq<Row>, indent: nat) -> nat
    decreases rows.len(),
{
    if rows.len() > 0 && rows[0].indent > indent {
        1 + deeper(rows.skip(1), indent)
    } else {
        0
    }
}

/// The trees that some rows form: below a row stand the rows that follow it
/// up to the next one that is indented no deeper.
pub open spec fn outline(rows: Seq<Row>) -> Seq<VdevNode>
    decreases rows.len(),
{
    if rows.len() == 0 {
        Seq::empty()
    } else {
        let n = deeper(rows.skip(1), rows[0].indent);
        if n < rows.len() {
            seq![
                VdevNode { row: rows[0].row, children: outline(rows.subrange(1, 1 + n as int)) },
            ] + outline(rows.skip(1 + n as int))
        } else {
            Seq::empty()
        }
    }
}

/// The tree of a table: the first row is the root, and every other row stands
/// below it, whatever its indentation.
pub open spec fn table_tree(rows: Seq<Row>) -> Option<VdevNode> {
    if rows.len() == 0 {
        None
    } else {
        Some(VdevNode { row: rows[0].row, children: outline(rows.skip(1)) })
    }
}

proof fn lemma_deeper(rows: Seq<Row>, indent: nat)
    ensures
        deeper(rows, indent) <= rows.len(),
        forall|i: int| 0 <= i < deeper(rows, indent) ==> (#[trigger] rows[i]).indent > indent,
        deeper(rows, indent) < rows.len() ==> rows[deeper(rows, indent) as int].indent <= indent,
    decreases rows.len(),
{
    if rows.len() > 0 && rows[0].indent > indent {
        let rest = rows.skip(1);
        lemma_deeper(rest, indent);
        assert forall|i: int| 0 <= i < deeper(rows, indent) implies (#[trigger] rows[i]).indent
            > indent by {
            if i > 0 {
                assert(rest[i - 1] == rows[i]);
            }
        }
    }
}

proof fn lemma_deeper_is(rows: Seq<Row>, indent: nat, n: nat)
    requires
        n <= rows.len(),
        forall|i: int| 0 <= i < n ==> (#[trigger] rows[i]).indent > indent,
        n < rows.len() ==> rows[n as int].indent <= indent,
    ensures
        deeper(rows, indent) == n,
{
    lemma_deeper(rows, indent);
    let d = deeper(rows, indent);
    if d < n {
        assert(rows[d as int].indent > indent);
    }
    if n < d {
        assert(rows[n as int].indent > indent);
    }
}

/// A row that is indented no deeper than any before it starts a tree of its
/// own.
pub proof fn lemma_outline_concat(a: Seq<Row>, b: Seq<Row>)
    requires
        b.len() > 0,
        forall|i: int| 0 <= i < a.len() ==> (#[trigger] a[i]).indent >= b[0].indent,
    ensures
        outline(a + b) == outline(a) + outline(b),
    decreases a.len(),
{
    if a.len() == 0 {
        assert(a + b == b);
        assert(outline(a) + outline(b) == outline(b));
    } else {
        let ind = a[0].indent;
        let n = deeper(a.skip(1), ind);
        lemma_deeper(a.skip(1), ind);
        let all = a + b;
        assert forall|i: int| 0 <= i < n implies (#[trigger] all.skip(1)[i]).indent > ind by {
            assert(all.skip(1)[i] == a.skip(1)[i]);
        }
        if n < a.skip(1).len() {
            assert(all.skip(1)[n as int] == a.skip(1)[n as int]);
        } else {
            assert(all.skip(1)[n as int] == b[0]);
        }
        lemma_deeper_is(all.skip(1), ind, n);
        let k = 1 + n as int;
        assert(all.subrange(1, k) == a.subrange(1, k));
        assert(all.skip(k) == a.skip(k) + b);
        assert forall|i: int| 0 <= i < a.skip(k).len() implies (#[trigger] a.skip(k)[i]).indent
            >= b[0].indent by {
            assert(a.skip(k)[i] == a[k + i]);
        }
        lemma_outline_concat(a.skip(k), b);
        let head = seq![VdevNode { row: a[0].row, children: outline(a.subrange(1, k)) }];
        assert(outline(all) == head + outline(all.skip(k)));
        assert(head + (outline(a.skip(k)) + outline(b)) == (head + outline(a.skip(k))) + outline(
            b,
        ));
    }
}

/// Rows that are all indented deeper than the first one form a single tree.
pub proof fn lemma_outline_single(rows: Seq<Row>)
    requires
        rows.len() > 0,
        forall|i: int| 0 < i < rows.len() ==> (#[trigger] rows[i]).indent > rows[0].indent,
    ensures
        outline(rows) == seq![VdevNode { row: rows[0].row, children: outline(rows.skip(1)) }],
{
    let rest = rows.skip(1);
    assert forall|i: int| 0 <= i < rest.len() implies (#[trigger] rest[i]).indent
        > rows[0].indent by {
        assert(rest[i] == rows[i + 1]);
    }
    lemma_deeper_is(rest, rows[0].indent, rest.len());
    assert(rows.subrange(1, rows.len() as int) == rest);
    assert(outline(rows.skip(rows.len() as int)) =~= Seq::<VdevNode>::empty());
}

/// Where the subtree of an open row's closed children ends.
spec fn closed_end(at: Seq<int>, j: int, n: int) -> int {
    if j + 1 < at.len() {
        at[j + 1]
    } else {
        n
    }
}

/// What holds of the `j`th open row. It holds the trees of the rows between it
/// and the next open one. Below the root, everything behind it is indented
/// deeper, and nothing between it and the open row before is indented less.
spec fn open_row(nodes: Seq<(u128, VdevInfo)>, at: Seq<int>, rows: Seq<Row>, j: int) -> bool {
    &&& 0 <= at[j] < rows.len()
    &&& nodes[j].1.row() == rows[at[j]].row
    &&& forest(nodes[j].1.children@) == outline(
        rows.subrange(at[j] + 1, closed_end(at, j, rows.len() as int)),
    )
    &&& j > 0 ==> {
        &&& at[j - 1] < at[j]
        &&& nodes[j].0 == rows[at[j]].indent
        &&& forall|q: int|
            at[j - 1] < q < at[j] ==> (#[trigger] rows[q]).indent >= rows[at[j]].indent
        &&& forall|q: int|
            at[j] < q < rows.len() ==> (#[trigger] rows[q]).indent > rows[at[j]].indent
    }
}

/// The open rows of a table that is being read, from the root down: `at` says
/// which row each is.
spec fn open_rows(nodes: Seq<(u128, VdevInfo)>, at: Seq<int>, rows: Seq<Row>) -> bool {
    &&& nodes.len() == at.len()
    &&& rows.len() > 0 <==> at.len() > 0
    &&& at.len() > 0 ==> at[0] == 0
    &&& forall|j: int| 0 <= j < at.len() ==> #[trigger] open_row(nodes, at, rows, j)
}

/// Open rows stand in order.
proof fn lemma_in_order(
    nodes: Seq<(u128, VdevInfo)>,
    at: Seq<int>,
    rows: Seq<Row>,
    j: int,
    k: int,
)
    requires
        open_rows(nodes, at, rows),
        0 <= j < k < at.len(),
    ensures
        at[j] < at[k],
    decreases k,
{
    assert(open_row(nodes, at, rows, k));
    if j < k - 1 {
        lemma_in_order(nodes, at, rows, j, k - 1);
    }
}

/// The tree of the last open row joins the closed children of the one before.
proof fn lemma_close_tree(
    nodes: Seq<(u128, VdevInfo)>,
    parent: VdevInfo,
    at: Seq<int>,
    rows: Seq<Row>,
)
    requires
        open_rows(nodes, at, rows),
        at.len() >= 2,
        parent.children@ == nodes[at.len() - 2].1.children@.push(nodes.last().1),
    ensures
        forest(parent.children@) == outline(
            rows.subrange(at[at.len() - 2] + 1, rows.len() as int),
        ),
{
    let m = at.len() - 1;
    let n = rows.len() as int;
    let last = nodes[m].1;
    assert(open_row(nodes, at, rows, m));
    assert(open_row(nodes, at, rows, m - 1));
    let a = rows.subrange(at[m - 1] + 1, at[m]);
    let b = rows.subrange(at[m], n);
    assert(rows.subrange(at[m - 1] + 1, n) == a + b);
    assert forall|i: int| 0 <= i < a.len() implies (#[trigger] a[i]).indent >= b[0].indent by {
        assert(a[i] == rows[at[m - 1] + 1 + i]);
    }
    lemma_outline_concat(a, b);
    assert forall|i: int| 0 < i < b.len() implies (#[trigger] b[i]).indent > b[0].indent by {
        assert(b[i] == rows[at[m] + i]);
    }
    lemma_outline_single(b);
    assert(b.skip(1) == rows.subrange(at[m] + 1, n));
    lemma_children(last);
    assert(forest(parent.children@) == forest(nodes[m - 1].1.children@).push(last@));
    assert(forest(parent.children@) == outline(a) + outline(b));
}

/// Closing the last open row hangs its tree below the open row before it.
proof fn lemma_close(
    nodes: Seq<(u128, VdevInfo)>,
    after: Seq<(u128, VdevInfo)>,
    at: Seq<int>,
    rows: Seq<Row>,
)
    requires
        open_rows(nodes, at, rows),
        at.len() >= 2,
        after.len() == at.len() - 1,
        after.drop_last() == nodes.take(at.len() - 2),
        after.last().0 == nodes[at.len() - 2].0,
        after.last().1.row() == nodes[at.len() - 2].1.row(),
        after.last().1.children@ == nodes[at.len() - 2].1.children@.push(nodes.last().1),
    ensures
        open_rows(after, at.drop_last(), rows),
{
    let m = at.len() - 1;
    lemma_close_tree(nodes, after.last().1, at, rows);
    let up = at.drop_last();
    assert forall|j: int| 0 <= j < up.len() implies #[trigger] open_row(after, up, rows, j) by {
        assert(open_row(nodes, at, rows, j));
        if j < m - 1 {
            assert(after.drop_last()[j] == nodes.take(m - 1)[j]);
        }
    }
}

/// A row that is indented deeper than every open one but the root, and no
/// deeper than anything behind the last open one, can be opened.
proof fn lemma_open(
    nodes: Seq<(u128, VdevInfo)>,
    at: Seq<int>,
    rows: Seq<Row>,
    row: Row,
    entry: (u128, VdevInfo),
)
    requires
        open_rows(nodes, at, rows),
        entry.0 == row.indent,
        entry.1.row() == row.row,
        entry.1.children@.len() == 0,
        at.len() > 1 ==> rows[at.last()].indent < row.indent,
        forall|q: int|
            at.len() > 0 && at.last() < q < rows.len() ==> (#[trigger] rows[q]).indent
                >= row.indent,
    ensures
        open_rows(nodes.push(entry), at.push(rows.len() as int), rows.push(row)),
{
    let n = rows.len() as int;
    let more = rows.push(row);
    let down = at.push(n);
    let after = nodes.push(entry);
    assert forall|j: int| 0 <= j < down.len() implies #[trigger] open_row(after, down, more, j) by {
        if j < at.len() {
            assert(open_row(nodes, at, rows, j));
            if j + 1 < at.len() {
                assert(open_row(nodes, at, rows, j + 1));
            }
            assert(closed_end(down, j, n + 1) == closed_end(at, j, n));
            assert(more.subrange(at[j] + 1, closed_end(at, j, n)) == rows.subrange(
                at[j] + 1,
                closed_end(at, j, n),
            ));
            if j > 0 {
                assert(open_row(nodes, at, rows, j - 1));
                assert forall|q: int| at[j - 1] < q < at[j] implies (
                #[trigger] more[q]).indent >= more[at[j]].indent by {
                    assert(more[q] == rows[q]);
                }
                assert forall|q: int| at[j] < q < more.len() implies (
                #[trigger] more[q]).indent > more[at[j]].indent by {
                    if q < n {
                        assert(more[q] == rows[q]);
                    } else if j + 1 < at.len() {
                        let last = at.len() - 1;
                        lemma_in_order(nodes, at, rows, j, last);
                        assert(open_row(nodes, at, rows, last));
                        assert(rows[at[last]].indent > rows[at[j]].indent);
                    }
                }
            }
        } else {
            if j > 0 {
                assert(open_row(nodes, at, rows, j - 1));
                assert forall|q: int| at[j - 1] < q < n implies (
                #[trigger] more[q]).indent >= row.indent by {
                    assert(more[q] == rows[q]);
                }
            }
            assert(closed_end(down, j, n + 1) == n + 1);
            assert(forest(entry.1.children@) =~= Seq::<VdevNode>::empty());
            assert(outline(more.subrange(n + 1, n + 1)) =~= Seq::<VdevNode>::empty());
        }
    }
}

/// Closes the last open row.
fn close_last(nodes: &mut Vec<(u128, VdevInfo)>)
    requires
        old(nodes)@.len() >= 2,
    ensures
        ({
            let n = old(nodes)@.len() - 2;
            let parent = old(nodes)@[n];
            &&& final(nodes)@.len() == n + 1
            &&& final(nodes)@.take(n) == old(nodes)@.take(n)
            &&& final(nodes)@[n].0 == parent.0
            &&& final(nodes)@[n].1.row() == parent.1.row()
            &&& final(nodes)@[n].1.children@ == parent.1.children@.push(old(nodes)@.last().1)
        }),
{
    let ghost before = nodes@;
    match nodes.pop() {
        Some((_, finished)) => match nodes.pop() {
            Some((indent, mut parent)) => {
                parent.children.push(finished);
                nodes.push((indent, parent));
                assert(nodes@.take(before.len() - 2) == before.take(before.len() - 2));
            },
            None => {},
        },
        None => {},
    }
}

fn outside_table_of(l: &[char]) -> (b: bool)
    ensures
        b == outside_table(l@),
{
    starts_with_text(l, "NAME") || starts_with_text(l, "-") || contains_text(l, "state:")
        || contains_text(l, "status:") || contains_text(l, "action:") || contains_text(l, "see:")
        || contains_text(l, "config:")
}

/// Reads one row of the vdev table, with its indentation.
fn table_row_of(l: &[char]) -> (r: Option<(u128, VdevInfo)>)
    ensures
        match r {
            Some((indent, vdev)) => table_row(l@) == Some(
                Row { indent: indent as nat, row: vdev.row() },
            ) && vdev.children@.len() == 0,
            None => table_row(l@) is None,
        },
{
    if outside_table_of(l) {
        return None;
    }
    let trimmed = trim_start_of(l);
    let tokens: Vec<&[char]> = words_of(trimmed);
    let ghost ws = texts(tokens@);
    if tokens.len() < 2 {
        return None;
    }
    let mut si: usize = 0;
    assert(ws.skip(0) == ws);
    while si < tokens.len() && parse_state_token(tokens[si]).is_none()
        invariant
            si <= tokens@.len(),
            ws == texts(tokens@),
            words_before_state(ws) == si + words_before_state(ws.skip(si as int)),
        decreases tokens@.len() - si,
    {
        assert(ws.skip(si as int)[0] == tokens@[si as int]@);
        assert(ws.skip(si as int).skip(1) == ws.skip(si + 1));
        si += 1;
    }
    proof {
        if si < tokens@.len() {
            assert(ws.skip(si as int)[0] == tokens@[si as int]@);
        }
        assert(words_before_state(ws) == si);
    }
    if si == tokens.len() || si == 0 {
        return None;
    }
    match parse_state_token(tokens[si]) {
        Some(state) => {
            let name = join_words(&tokens, 0, si);
            assert(ws.subrange(0, si as int) == ws.take(si as int));
            let counters = parse_counters(&tokens, si + 1);
            let rebuild_pct = progress_pct_of(l);
            proof {
                lemma_prefix_len(l@, space());
            }
            let margin = slice_subrange(l, 0, l.len() - trimmed.len());
            assert(margin@ == l@.take(prefix_len(l@, space()) as int));
            let indent: u128 = byte_len_of(margin);
            Some(
                (
                    indent,
                    VdevInfo {
                        name: string_of(name.as_slice()),
                        state,
                        is_rebuild_target: rebuild_pct.is_some(),
                        read_err: counters.0,
                        write_err: counters.1,
                        checksum_err: counters.2,
                        rebuild_pct,
                        children: Vec::new(),
                    },
                ),
            )
        },
        None => None,
    }
}

/// Parses `zpool status -v` text into a vdev tree plus the scan progress line.
///
/// Returns `(root_vdev_name, root_tree, progress_pct, errors_lines)`.
///
/// The rows are kept on a list of open ones, from the root down. A row closes
/// the open ones that are indented no less, and is opened in turn.
pub fn parse_status(raw: &str) -> (r: (
    String,
    Option<VdevInfo>,
    Option<Binary64>,
    Vec<String>,
))
    ensures
        ({
            let st = status_text(lines(raw@));
            &&& r.0@ == (if st.rows.len() > 0 {
                st.rows[0].row.name
            } else {
                Seq::empty()
            })
            &&& match r.1 {
                Some(root) => table_tree(st.rows) == Some(root@),
                None => table_tree(st.rows) is None,
            }
            &&& r.2 == st.progress
            &&& strings(r.3@) == st.errors
        }),
{
    let all: Vec<char> = chars(raw);
    let ls: Vec<&[char]> = lines_of(all.as_slice());
    let ghost seen = texts(ls@);
    let mut root_name = String::new();
    let mut nodes: Vec<(u128, VdevInfo)> = Vec::new();
    let mut progress: Option<Binary64> = None;
    let mut errors_section: bool = false;
    let mut errors_lines: Vec<String> = Vec::new();
    let ghost mut at: Seq<int> = Seq::empty();
    let mut i: usize = 0;
    proof {
        assert(seen.take(0) =~= Seq::<Seq<char>>::empty());
        assert(strings(errors_lines@) =~= Seq::<Seq<char>>::empty());
    }
    while i < ls.len()
        invariant
            i <= ls@.len(),
            seen == texts(ls@),
            ({
                let st = status_text(seen.take(i as int));
                &&& progress == st.progress
                &&& errors_section == st.in_errors
                &&& strings(errors_lines@) == st.errors
                &&& open_rows(nodes@, at, st.rows)
                &&& at.len() > 0 ==> at.last() == st.rows.len() - 1
                &&& st.rows.len() > 0 ==> root_name@ == st.rows[0].row.name
                &&& st.rows.len() == 0 ==> root_name@.len() == 0
            }),
        decreases ls@.len() - i,
    {
        let ghost st = status_text(seen.take(i as int));
        let ghost next = status_text(seen.take(i + 1));
        let line = trim_end_of(ls[i]);
        proof {
            assert(seen.take(i + 1).drop_last() == seen.take(i as int));
            assert(seen.take(i + 1).last() == ls@[i as int]@);
            assert(next == status_line(st, ls@[i as int]@));
        }
        i += 1;
        if starts_with_text(line, "scan:") || contains_text(line, " scan:") {
            if let Some(p) = progress_pct_of(line) {
                progress = Some(p);
            }
            continue;
        }
        if starts_with_text(line, "errors:") {
            errors_section = true;
            continue;
        }
        if errors_section {
            if line.len() > 0 && !starts_with_text(line, "no known data errors") {
                let ghost before = errors_lines@;
                errors_lines.push(string_of(line));
                assert(strings(errors_lines@) == strings(before).push(line@));
            }
            continue;
        }
        let trimmed = trim_start_of(line);
        if trimmed.len() == 0 {
            continue;
        }
        // Some releases put the percentage on a line of its own.
        if progress.is_none() {
            progress = progress_pct_of(trimmed);
        }
        if let Some((indent, vdev)) = table_row_of(line) {
            let ghost row = Row { indent: indent as nat, row: vdev.row() };
            while nodes.len() > 1 && nodes[nodes.len() - 1].0 >= indent
                invariant
                    open_rows(nodes@, at, st.rows),
                    forall|q: int|
                        at.len() > 0 && at.last() < q < st.rows.len() ==> (
                        #[trigger] st.rows[q]).indent >= indent,
                decreases nodes@.len(),
            {
                let ghost before = nodes@;
                close_last(&mut nodes);
                proof {
                    lemma_close(before, nodes@, at, st.rows);
                    let m = at.len() - 1;
                    assert(open_row(before, at, st.rows, m));
                    assert(open_row(before, at, st.rows, m - 1));
                    at = at.drop_last();
                }
            }
            if nodes.len() == 0 {
                root_name = vdev.name.clone();
            }
            let ghost before = nodes@;
            nodes.push((indent, vdev));
            proof {
                if at.len() > 1 {
                    assert(open_row(before, at, st.rows, at.len() - 1));
                }
                lemma_open(before, at, st.rows, row, nodes@.last());
                at = at.push(st.rows.len() as int);
            }
        }
    }
    proof {
        assert(seen.take(seen.len() as int) == seen);
    }
    let ghost rows = status_text(seen).rows;
    while nodes.len() > 1
        invariant
            open_rows(nodes@, at, rows),
        decreases nodes@.len(),
    {
        let ghost before = nodes@;
        close_last(&mut nodes);
        proof {
            lemma_close(before, nodes@, at, rows);
            at = at.drop_last();
        }
    }
    let ghost before = nodes@;
    let root = match nodes.pop() {
        Some((_, root)) => {
            proof {
                assert(open_row(before, at, rows, 0));
                lemma_children(root);
                assert(rows.subrange(1, rows.len() as int) == rows.skip(1));
            }
            Some(root)
        },
        None => None,
    };
    (root_name, root, progress, errors_lines)
}

/// The rows of a tree, each before those below it.
pub open spec fn preorder(n: VdevNode) -> Seq<VdevRow>
    decreases n,
{
    seq![n.row] + preorder_all(n.children)
}

/// The rows of some trees, in order.
pub open spec fn preorder_all(f: Seq<VdevNode>) -> Seq<VdevRow>
    decreases f,
{
    if f.len() == 0 {
        Seq::empty()
    } else {
        preorder(f[0]) + preorder_all(f.subrange(1, f.len() as int))
    }
}

/// What some rows say, without their indentation.
pub open spec fn row_texts(rows: Seq<Row>) -> Seq<VdevRow> {
    Seq::new(rows.len(), |i: int| rows[i].row)
}

proof fn lemma_outline_keeps_rows(rows: Seq<Row>)
    ensures
        preorder_all(outline(rows)) == row_texts(rows),
    decreases rows.len(),
{
    if rows.len() > 0 {
        let n = deeper(rows.skip(1), rows[0].indent);
        lemma_deeper(rows.skip(1), rows[0].indent);
        let k = 1 + n as int;
        let inner = rows.subrange(1, k);
        let rest = rows.skip(k);
        lemma_outline_keeps_rows(inner);
        lemma_outline_keeps_rows(rest);
        let first = VdevNode { row: rows[0].row, children: outline(inner) };
        let f = seq![first] + outline(rest);
        assert(outline(rows) == f);
        assert(f.subrange(1, f.len() as int) == outline(rest));
        assert(preorder_all(f) == preorder(first) + preorder_all(outline(rest)));
        assert(row_texts(rows) == seq![rows[0].row] + row_texts(inner) + row_texts(rest));
    } else {
        assert(row_texts(rows) == Seq::<VdevRow>::empty());
    }
}

/// No row of the table is lost, repeated or reordered: walking the tree from
/// the root down gives the rows back as they were printed.
pub proof fn law_tree_holds_every_row(rows: Seq<Row>)
    ensures
        table_tree(rows) matches Some(root) ==> preorder(root) == row_texts(rows),
        table_tree(rows) is None <==> rows.len() == 0,
{
    if rows.len() > 0 {
        lemma_outline_keeps_rows(rows.skip(1));
        assert(row_texts(rows) == seq![rows[0].row] + row_texts(rows.skip(1)));
    }
}

/// A line that is not recognized is skipped: it changes nothing of what was
/// read before it.
pub proof fn law_unrecognized_line_is_skipped(st: StatusText, line: Seq<char>)
    requires
        !starts_with(trim_end(line), "scan:"@),
        !contains(trim_end(line), " scan:"@),
        !starts_with(trim_end(line), "errors:"@),
        !st.in_errors,
        table_row(trim_end(line)) is None,
        progress_pct(trim_start(trim_end(line))) is None,
    ensures
        status_line(st, line) == st,
{
}

/// A line adds at most one row, never takes one away, and adds none once the
/// `errors:` section has begun, which nothing ends.
pub proof fn law_rows_only_grow(st: StatusText, line: Seq<char>)
    ensures
        status_line(st, line).rows == st.rows || status_line(st, line).rows.drop_last() == st.rows,
        st.in_errors ==> status_line(st, line).rows == st.rows,
        st.in_errors ==> status_line(st, line).in_errors,
        !st.in_errors ==> status_line(st, line).errors == st.errors,
        st.progress is Some ==> status_line(st, line).progress is Some,
{
    if let Some(row) = table_row(trim_end(line)) {
        assert(st.rows.push(row).drop_last() == st.rows);
    }
}

/// Annotations behind the counters of a row leave the counters as they are.
pub proof fn law_annotations_keep_counters(ws: Seq<Seq<char>>, notes: Seq<Seq<char>>)
    requires
        forall|i: int| 0 <= i < notes.len() ==> counter_token(#[trigger] notes[i]) is None,
    ensures
        row_counters(ws + notes) == row_counters(ws),
    decreases notes.len(),
{
    if notes.len() > 0 {
        let fewer = notes.drop_last();
        assert forall|i: int| 0 <= i < fewer.len() implies counter_token(
            #[trigger] fewer[i],
        ) is None by {
            assert(fewer[i] == notes[i]);
        }
        law_annotations_keep_counters(ws, fewer);
        assert((ws + notes).drop_last() == ws + fewer);
        assert((ws + notes).last() == notes.last());
    } else {
        assert(ws + notes == ws);
    }
}

/// The most significant rebuild wins wherever it stands: one that is running
/// before one that is complete before one that was canceled.
pub proof fn law_most_significant_rebuild_wins(ls: Seq<Seq<char>>, i: int)
    requires
        0 <= i < ls.len(),
    ensures
        rebuild_active(ls[i]) ==> (rebuild_found(ls) matches Some(p) && p.state
            == ScanState::Scanning),
        rebuild_complete(ls[i]) ==> (rebuild_found(ls) matches Some(p) && p.state
            != ScanState::Canceled),
        rebuild_canceled(ls[i]) ==> rebuild_found(ls) is Some,
{
    if rebuild_complete(ls[i]) {
        lemma_first_complete(ls, i);
    }
}

proof fn lemma_first_complete(ls: Seq<Seq<char>>, i: int)
    requires
        0 <= i < ls.len(),
        rebuild_complete(ls[i]),
    ensures
        first_complete(ls) is Some,
    decreases ls.len(),
{
    if !rebuild_complete(ls[0]) {
        assert(ls.skip(1)[i - 1] == ls[i]);
        lemma_first_complete(ls.skip(1), i - 1);
    }
}

} // verus!
