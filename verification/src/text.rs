//! Text as sequences of characters: trimming, splitting and searching.
//!
//! The specification functions say on `Seq<char>` what the operations of the
//! standard library on `str` say on strings; the executable functions work on
//! slices of characters.

use vstd::prelude::*;
use vstd::slice::slice_subrange;

verus! {

/// `String::push` of the standard library appends one character.
pub assume_specification[ String::push ](s: &mut String, ch: char)
    ensures
        final(s)@ == old(s)@.push(ch),
;

/// Whether `c` has the Unicode property `White_Space`.
pub open spec fn is_space(c: char) -> bool {
    let n = c as u32;
    ||| 0x9 <= n <= 0xd
    ||| n == 0x20
    ||| n == 0x85
    ||| n == 0xa0
    ||| n == 0x1680
    ||| 0x2000 <= n <= 0x200a
    ||| n == 0x2028
    ||| n == 0x2029
    ||| n == 0x202f
    ||| n == 0x205f
    ||| n == 0x3000
}

/// Whether `c` is an ASCII decimal digit.
pub open spec fn is_digit(c: char) -> bool {
    '0' <= c && c <= '9'
}

/// The predicate of white space.
pub open spec fn space() -> spec_fn(char) -> bool {
    |c: char| is_space(c)
}

/// The predicate of everything but white space.
pub open spec fn ink() -> spec_fn(char) -> bool {
    |c: char| !is_space(c)
}

/// The predicate of every character but `x`.
pub open spec fn other_than(x: char) -> spec_fn(char) -> bool {
    |c: char| c != x
}

/// The predicate of the one character `x`.
pub open spec fn only(x: char) -> spec_fn(char) -> bool {
    |c: char| c == x
}

/// The predicate of ASCII digits.
pub open spec fn digit() -> spec_fn(char) -> bool {
    |c: char| is_digit(c)
}

/// The predicate of ASCII digits and the decimal point.
pub open spec fn digit_or_point() -> spec_fn(char) -> bool {
    |c: char| is_digit(c) || c == '.'
}

/// How many leading characters of `s` satisfy `p`.
pub open spec fn prefix_len(s: Seq<char>, p: spec_fn(char) -> bool) -> nat
    decreases s.len(),
{
    if s.len() > 0 && p(s[0]) {
        1 + prefix_len(s.skip(1), p)
    } else {
        0
    }
}

/// How many trailing characters of `s` satisfy `p`.
pub open spec fn suffix_len(s: Seq<char>, p: spec_fn(char) -> bool) -> nat
    decreases s.len(),
{
    if s.len() > 0 && p(s.last()) {
        1 + suffix_len(s.drop_last(), p)
    } else {
        0
    }
}

pub proof fn lemma_prefix_len(s: Seq<char>, p: spec_fn(char) -> bool)
    ensures
        prefix_len(s, p) <= s.len(),
        forall|i: int| 0 <= i < prefix_len(s, p) ==> p(#[trigger] s[i]),
        prefix_len(s, p) < s.len() ==> !p(s[prefix_len(s, p) as int]),
    decreases s.len(),
{
    if s.len() > 0 && p(s[0]) {
        lemma_prefix_len(s.skip(1), p);
        assert forall|i: int| 0 <= i < prefix_len(s, p) implies p(#[trigger] s[i]) by {
            if i > 0 {
                assert(s[i] == s.skip(1)[i - 1]);
            }
        }
    }
}

pub proof fn lemma_prefix_len_is(s: Seq<char>, p: spec_fn(char) -> bool, n: nat)
    requires
        n <= s.len(),
        forall|i: int| 0 <= i < n ==> p(#[trigger] s[i]),
        n < s.len() ==> !p(s[n as int]),
    ensures
        prefix_len(s, p) == n,
{
    lemma_prefix_len(s, p);
    let m = prefix_len(s, p);
    if m < n {
        assert(p(s[m as int]));
    } else if n < m {
        assert(p(s[n as int]));
    }
}

pub proof fn lemma_suffix_len(s: Seq<char>, p: spec_fn(char) -> bool)
    ensures
        suffix_len(s, p) <= s.len(),
        forall|i: int| s.len() - suffix_len(s, p) <= i < s.len() ==> p(#[trigger] s[i]),
        suffix_len(s, p) < s.len() ==> !p(s[s.len() - suffix_len(s, p) - 1]),
    decreases s.len(),
{
    if s.len() > 0 && p(s.last()) {
        let t = s.drop_last();
        lemma_suffix_len(t, p);
        assert forall|i: int| s.len() - suffix_len(s, p) <= i < s.len() implies p(
            #[trigger] s[i],
        ) by {
            if i < t.len() {
                assert(s[i] == t[i]);
            }
        }
    }
}

pub proof fn lemma_suffix_len_is(s: Seq<char>, p: spec_fn(char) -> bool, n: nat)
    requires
        n <= s.len(),
        forall|i: int| s.len() - n <= i < s.len() ==> p(#[trigger] s[i]),
        n < s.len() ==> !p(s[s.len() - n - 1]),
    ensures
        suffix_len(s, p) == n,
{
    lemma_suffix_len(s, p);
    let m = suffix_len(s, p);
    if m < n {
        assert(p(s[s.len() - m - 1]));
    } else if n < m {
        assert(p(s[s.len() - n - 1]));
    }
}

/// `s` without the leading characters that satisfy `p`.
pub open spec fn drop_while(s: Seq<char>, p: spec_fn(char) -> bool) -> Seq<char> {
    s.skip(prefix_len(s, p) as int)
}

/// `s` without the trailing characters that satisfy `p`.
pub open spec fn drop_while_end(s: Seq<char>, p: spec_fn(char) -> bool) -> Seq<char> {
    s.take(s.len() - suffix_len(s, p))
}

/// `s` without leading white space.
pub open spec fn trim_start(s: Seq<char>) -> Seq<char> {
    drop_while(s, space())
}

/// `s` without trailing white space.
pub open spec fn trim_end(s: Seq<char>) -> Seq<char> {
    drop_while_end(s, space())
}

/// `s` without white space at either end.
pub open spec fn trim(s: Seq<char>) -> Seq<char> {
    trim_end(trim_start(s))
}

/// `s` without the character `x` at either end.
pub open spec fn trim_char(s: Seq<char>, x: char) -> Seq<char> {
    drop_while_end(drop_while(s, only(x)), only(x))
}

/// The words of `s`: its longest stretches without white space, in order.
pub open spec fn words(s: Seq<char>) -> Seq<Seq<char>>
    decreases s.len(),
{
    if s.len() == 0 {
        Seq::empty()
    } else if is_space(s[0]) {
        words(s.skip(1))
    } else {
        let n = prefix_len(s, ink()) as int;
        proof {
            lemma_prefix_len(s, ink());
        }
        seq![s.take(n)] + words(s.skip(n))
    }
}

/// `s` without one trailing carriage return.
pub open spec fn strip_cr(s: Seq<char>) -> Seq<char> {
    if s.len() > 0 && s.last() == '\r' {
        s.drop_last()
    } else {
        s
    }
}

/// The lines of `s`. A line ends at a line feed, or at a carriage return with
/// a line feed behind it; the ending of the last line may be missing.
pub open spec fn lines(s: Seq<char>) -> Seq<Seq<char>>
    decreases s.len(),
{
    if s.len() == 0 {
        Seq::empty()
    } else {
        let n = prefix_len(s, other_than('\n')) as int;
        proof {
            lemma_prefix_len(s, other_than('\n'));
        }
        if n >= s.len() {
            seq![s]
        } else {
            seq![strip_cr(s.take(n))] + lines(s.skip(n + 1))
        }
    }
}

/// Whether `p` stands in `s` at index `i`.
pub open spec fn occurs_at(s: Seq<char>, p: Seq<char>, i: int) -> bool {
    &&& 0 <= i
    &&& i + p.len() <= s.len()
    &&& s.subrange(i, i + p.len()) == p
}

/// Whether `p` stands somewhere in `s`.
pub open spec fn contains(s: Seq<char>, p: Seq<char>) -> bool {
    exists|i: int| occurs_at(s, p, i)
}

pub open spec fn starts_with(s: Seq<char>, p: Seq<char>) -> bool {
    occurs_at(s, p, 0)
}

pub open spec fn ends_with(s: Seq<char>, p: Seq<char>) -> bool {
    occurs_at(s, p, s.len() - p.len())
}

/// Whether `i` is the first index at which `p` stands in `s`.
pub open spec fn first_at(s: Seq<char>, p: Seq<char>, i: int) -> bool {
    &&& occurs_at(s, p, i)
    &&& forall|j: int| 0 <= j < i ==> !occurs_at(s, p, j)
}

/// The first index at which `p` stands in `s`.
pub open spec fn find(s: Seq<char>, p: Seq<char>) -> Option<int> {
    if exists|i: int| first_at(s, p, i) {
        Some(choose|i: int| first_at(s, p, i))
    } else {
        None
    }
}

/// `s` without any number of copies of `p` in front.
pub open spec fn strip_all(s: Seq<char>, p: Seq<char>) -> Seq<char>
    decreases s.len(),
{
    if p.len() > 0 && starts_with(s, p) {
        strip_all(s.skip(p.len() as int), p)
    } else {
        s
    }
}

/// The words of `ws` with `sep` between each two.
pub open spec fn join(ws: Seq<Seq<char>>, sep: Seq<char>) -> Seq<char>
    decreases ws.len(),
{
    if ws.len() == 0 {
        Seq::empty()
    } else if ws.len() == 1 {
        ws[0]
    } else {
        join(ws.drop_last(), sep) + sep + ws.last()
    }
}

/// How many bytes the UTF-8 encoding of `c` has.
pub open spec fn char_bytes(c: char) -> nat {
    let n = c as u32;
    if n < 0x80 {
        1
    } else if n < 0x800 {
        2
    } else if n < 0x1_0000 {
        3
    } else {
        4
    }
}

/// How many bytes the UTF-8 encoding of `s` has.
pub open spec fn byte_len(s: Seq<char>) -> nat
    decreases s.len(),
{
    if s.len() == 0 {
        0
    } else {
        byte_len(s.drop_last()) + char_bytes(s.last())
    }
}

/// `n` copies of `c`.
pub open spec fn repeat(c: char, n: nat) -> Seq<char> {
    Seq::new(n, |i: int| c)
}

/// The texts that a sequence of slices holds.
pub open spec fn texts(v: Seq<&[char]>) -> Seq<Seq<char>> {
    Seq::new(v.len(), |i: int| v[i]@)
}

/// The texts that a sequence of strings holds.
pub open spec fn strings(v: Seq<String>) -> Seq<Seq<char>> {
    Seq::new(v.len(), |i: int| v[i]@)
}

/// The characters of a string.
pub fn chars(s: &str) -> (v: Vec<char>)
    ensures
        v@ == s@,
{
    let mut v: Vec<char> = Vec::new();
    for c in it: s.chars()
        invariant
            v@ == it.seq().take(it.index()),
            it.seq() == s@,
    {
        v.push(c);
    }
    v
}

/// The string of some characters.
pub fn string_of(s: &[char]) -> (r: String)
    ensures
        r@ == s@,
{
    let mut r = String::new();
    push_chars(&mut r, s);
    assert(r@ == s@);
    r
}

/// Appends characters to a string.
pub fn push_chars(r: &mut String, s: &[char])
    ensures
        final(r)@ == old(r)@ + s@,
{
    let ghost before = r@;
    let mut i: usize = 0;
    while i < s.len()
        invariant
            i <= s@.len(),
            r@ == before + s@.take(i as int),
        decreases s@.len() - i,
    {
        r.push(s[i]);
        assert(s@.take(i + 1) == s@.take(i as int).push(s@[i as int]));
        i += 1;
    }
    assert(s@.take(s@.len() as int) == s@);
}

/// Appends `n` copies of `c` to a string.
pub fn push_repeat(r: &mut String, c: char, n: usize)
    ensures
        final(r)@ == old(r)@ + repeat(c, n as nat),
{
    let ghost before = r@;
    let mut i: usize = 0;
    while i < n
        invariant
            i <= n,
            r@ == before + repeat(c, i as nat),
        decreases n - i,
    {
        r.push(c);
        assert(repeat(c, (i + 1) as nat) == repeat(c, i as nat).push(c));
        i += 1;
    }
}

/// Whether a character is white space.
pub fn is_space_char(c: char) -> (b: bool)
    ensures
        b == is_space(c),
{
    let n: u32 = c as u32;
    (0x9 <= n && n <= 0xd) || n == 0x20 || n == 0x85 || n == 0xa0 || n == 0x1680 || (0x2000 <= n
        && n <= 0x200a) || n == 0x2028 || n == 0x2029 || n == 0x202f || n == 0x205f || n == 0x3000
}

/// Whether a character is an ASCII digit.
pub fn is_digit_char(c: char) -> (b: bool)
    ensures
        b == is_digit(c),
{
    '0' <= c && c <= '9'
}

/// Drops leading white space.
pub fn trim_start_of(s: &[char]) -> (r: &[char])
    ensures
        r@ == trim_start(s@),
{
    let mut i: usize = 0;
    while i < s.len() && is_space_char(s[i])
        invariant
            i <= s@.len(),
            forall|k: int| 0 <= k < i ==> space()(#[trigger] s@[k]),
        decreases s@.len() - i,
    {
        i += 1;
    }
    proof {
        lemma_prefix_len_is(s@, space(), i as nat);
    }
    slice_subrange(s, i, s.len())
}

/// Drops trailing white space.
pub fn trim_end_of(s: &[char]) -> (r: &[char])
    ensures
        r@ == trim_end(s@),
{
    let mut n: usize = s.len();
    while n > 0 && is_space_char(s[n - 1])
        invariant
            n <= s@.len(),
            forall|k: int| n <= k < s@.len() ==> space()(#[trigger] s@[k]),
        decreases n,
    {
        n -= 1;
    }
    proof {
        lemma_suffix_len_is(s@, space(), (s@.len() - n) as nat);
    }
    slice_subrange(s, 0, n)
}

/// Drops white space at both ends.
pub fn trim_of(s: &[char]) -> (r: &[char])
    ensures
        r@ == trim(s@),
{
    trim_end_of(trim_start_of(s))
}

/// Drops the character `x` at both ends.
pub fn trim_char_of(s: &[char], x: char) -> (r: &[char])
    ensures
        r@ == trim_char(s@, x),
{
    let mut i: usize = 0;
    while i < s.len() && s[i] == x
        invariant
            i <= s@.len(),
            forall|k: int| 0 <= k < i ==> only(x)(#[trigger] s@[k]),
        decreases s@.len() - i,
    {
        i += 1;
    }
    proof {
        lemma_prefix_len_is(s@, only(x), i as nat);
    }
    let t = slice_subrange(s, i, s.len());
    let mut n: usize = t.len();
    while n > 0 && t[n - 1] == x
        invariant
            n <= t@.len(),
            forall|k: int| n <= k < t@.len() ==> only(x)(#[trigger] t@[k]),
        decreases n,
    {
        n -= 1;
    }
    proof {
        lemma_suffix_len_is(t@, only(x), (t@.len() - n) as nat);
    }
    slice_subrange(t, 0, n)
}

/// Splits text into its words.
pub fn words_of<'a>(s: &'a [char]) -> (r: Vec<&'a [char]>)
    ensures
        texts(r@) == words(s@),
{
    let mut r: Vec<&'a [char]> = Vec::new();
    let mut i: usize = 0;
    assert(s@.skip(0) == s@);
    while i < s.len()
        invariant
            i <= s@.len(),
            texts(r@) + words(s@.skip(i as int)) == words(s@),
        decreases s@.len() - i,
    {
        let ghost rest = s@.skip(i as int);
        if is_space_char(s[i]) {
            assert(rest.skip(1) == s@.skip(i + 1));
            i += 1;
        } else {
            let mut j: usize = i;
            while j < s.len() && !is_space_char(s[j])
                invariant
                    i <= j <= s@.len(),
                    rest == s@.skip(i as int),
                    forall|k: int| 0 <= k < j - i ==> ink()(#[trigger] rest[k]),
                decreases s@.len() - j,
            {
                j += 1;
            }
            proof {
                lemma_prefix_len_is(rest, ink(), (j - i) as nat);
                assert(rest.take(j - i) == s@.subrange(i as int, j as int));
                assert(rest.skip(j - i) == s@.skip(j as int));
                assert(ink()(rest[0]));
            }
            let ghost before = texts(r@);
            r.push(slice_subrange(s, i, j));
            assert(texts(r@) == before.push(rest.take(j - i)));
            assert(before.push(rest.take(j - i)) + words(s@.skip(j as int)) == before + (seq![
                rest.take(j - i),
            ] + words(s@.skip(j as int))));
            i = j;
        }
    }
    assert(words(s@.skip(i as int)) =~= Seq::<Seq<char>>::empty());
    assert(texts(r@) + Seq::<Seq<char>>::empty() == texts(r@));
    r
}

/// Splits text into its lines.
pub fn lines_of<'a>(s: &'a [char]) -> (r: Vec<&'a [char]>)
    ensures
        texts(r@) == lines(s@),
{
    let mut r: Vec<&'a [char]> = Vec::new();
    let mut i: usize = 0;
    assert(s@.skip(0) == s@);
    while i < s.len()
        invariant
            i <= s@.len(),
            texts(r@) + lines(s@.skip(i as int)) == lines(s@),
        decreases s@.len() - i,
    {
        let ghost rest = s@.skip(i as int);
        let mut j: usize = i;
        while j < s.len() && s[j] != '\n'
            invariant
                i <= j <= s@.len(),
                rest == s@.skip(i as int),
                forall|k: int| 0 <= k < j - i ==> other_than('\n')(#[trigger] rest[k]),
            decreases s@.len() - j,
        {
            j += 1;
        }
        proof {
            lemma_prefix_len_is(rest, other_than('\n'), (j - i) as nat);
            assert(rest.take(j - i) == s@.subrange(i as int, j as int));
        }
        let ghost before = texts(r@);
        let ghost line: Seq<char>;
        if j < s.len() {
            let end: usize = if j > i && s[j - 1] == '\r' {
                j - 1
            } else {
                j
            };
            proof {
                line = strip_cr(rest.take(j - i));
                assert(line == s@.subrange(i as int, end as int));
                assert(rest.skip(j - i + 1) == s@.skip(j + 1));
                assert(lines(rest) == seq![line] + lines(s@.skip(j + 1)));
            }
            r.push(slice_subrange(s, i, end));
            i = j + 1;
        } else {
            proof {
                line = rest;
                assert(line == s@.subrange(i as int, j as int));
                assert(lines(s@.skip(j as int)) =~= Seq::<Seq<char>>::empty());
                assert(lines(rest) == seq![line] + lines(s@.skip(j as int)));
            }
            r.push(slice_subrange(s, i, j));
            i = j;
        }
        assert(texts(r@) == before.push(line));
        assert(before.push(line) + lines(s@.skip(i as int)) == before + (seq![line] + lines(
            s@.skip(i as int),
        )));
    }
    assert(lines(s@.skip(i as int)) =~= Seq::<Seq<char>>::empty());
    assert(texts(r@) + Seq::<Seq<char>>::empty() == texts(r@));
    r
}

/// Whether `p` stands in `s` at index `i`.
pub fn matches_at(s: &[char], p: &str, i: usize) -> (b: bool)
    requires
        i <= s@.len(),
    ensures
        b == occurs_at(s@, p@, i as int),
{
    let mut k: usize = i;
    for c in it: p.chars()
        invariant
            it.seq() == p@,
            i <= k <= s@.len(),
            k == i + it.index(),
            forall|j: int| 0 <= j < it.index() ==> #[trigger] p@[j] == s@[i + j],
    {
        if k >= s.len() {
            return false;
        }
        if s[k] != c {
            proof {
                let j = k - i;
                assert(p@[j] == c);
                if occurs_at(s@, p@, i as int) {
                    assert(s@.subrange(i as int, i + p@.len())[j] == s@[i + j]);
                }
            }
            return false;
        }
        k += 1;
    }
    assert(s@.subrange(i as int, i + p@.len()) =~= p@);
    true
}

/// Whether `s` is the text of `p`.
pub fn is_text(s: &[char], p: &str) -> (b: bool)
    ensures
        b == (s@ == p@),
{
    let r = s.len() == p.unicode_len() && matches_at(s, p, 0);
    proof {
        if s@.len() == p@.len() {
            assert(s@.subrange(0, p@.len() as int) == s@);
        }
    }
    r
}

/// Whether `s` starts with `p`.
pub fn starts_with_text(s: &[char], p: &str) -> (b: bool)
    ensures
        b == starts_with(s@, p@),
{
    matches_at(s, p, 0)
}

/// Whether `s` ends with `p`.
pub fn ends_with_text(s: &[char], p: &str) -> (b: bool)
    ensures
        b == ends_with(s@, p@),
{
    let n: usize = p.unicode_len();
    n <= s.len() && matches_at(s, p, s.len() - n)
}

/// The first index at which `p` stands in `s`.
pub fn find_text(s: &[char], p: &str) -> (r: Option<usize>)
    ensures
        match r {
            Some(i) => find(s@, p@) == Some(i as int) && first_at(s@, p@, i as int),
            None => find(s@, p@) is None && !contains(s@, p@),
        },
{
    let mut i: usize = 0;
    while i < s.len()
        invariant
            i <= s@.len(),
            forall|j: int| 0 <= j < i ==> !occurs_at(s@, p@, j),
        decreases s@.len() - i,
    {
        if matches_at(s, p, i) {
            proof {
                lemma_find_is(s@, p@, i as int);
            }
            return Some(i);
        }
        i += 1;
    }
    if matches_at(s, p, i) {
        proof {
            lemma_find_is(s@, p@, i as int);
        }
        return Some(i);
    }
    None
}

pub proof fn lemma_find_is(s: Seq<char>, p: Seq<char>, i: int)
    requires
        first_at(s, p, i),
    ensures
        find(s, p) == Some(i),
{
    let j = choose|j: int| first_at(s, p, j);
    assert(first_at(s, p, j));
}

/// Whether `p` stands somewhere in `s`.
pub fn contains_text(s: &[char], p: &str) -> (b: bool)
    ensures
        b == contains(s@, p@),
{
    find_text(s, p).is_some()
}

/// Drops every copy of `p` that stands in front.
pub fn strip_all_of<'a>(s: &'a [char], p: &str) -> (r: &'a [char])
    ensures
        r@ == strip_all(s@, p@),
    decreases s@.len(),
{
    let n: usize = p.unicode_len();
    if n > 0 && starts_with_text(s, p) {
        assert(s@.subrange(n as int, s@.len() as int) == s@.skip(n as int));
        strip_all_of(slice_subrange(s, n, s.len()), p)
    } else {
        s
    }
}

/// The words from index `from` to index `to`, with one blank between each two.
pub fn join_words(ws: &Vec<&[char]>, from: usize, to: usize) -> (r: Vec<char>)
    requires
        from <= to <= ws@.len(),
    ensures
        r@ == join(texts(ws@).subrange(from as int, to as int), seq![' ']),
{
    let ghost all = texts(ws@);
    let mut r: Vec<char> = Vec::new();
    let mut i: usize = from;
    assert(all.subrange(from as int, from as int) =~= Seq::<Seq<char>>::empty());
    while i < to
        invariant
            from <= i <= to <= ws@.len(),
            all == texts(ws@),
            r@ == join(all.subrange(from as int, i as int), seq![' ']),
        decreases to - i,
    {
        let ghost before = r@;
        let ghost next = all.subrange(from as int, i + 1);
        assert(next.drop_last() == all.subrange(from as int, i as int));
        assert(next.last() == ws@[i as int]@);
        if i > from {
            r.push(' ');
        }
        let w = ws[i];
        let mut k: usize = 0;
        let ghost started = r@;
        while k < w.len()
            invariant
                k <= w@.len(),
                r@ == started + w@.take(k as int),
            decreases w@.len() - k,
        {
            r.push(w[k]);
            assert(w@.take(k + 1) == w@.take(k as int).push(w@[k as int]));
            k += 1;
        }
        assert(w@.take(w@.len() as int) == w@);
        assert(started == if i > from {
            before + seq![' ']
        } else {
            before
        });
        assert(i == from ==> before =~= Seq::<char>::empty());
        assert(r@ == join(next, seq![' ']));
        i += 1;
    }
    r
}

/// How many bytes the text of `s` has in UTF-8.
pub fn byte_len_of(s: &[char]) -> (n: u128)
    ensures
        n == byte_len(s@),
        n <= 4 * usize::MAX,
{
    let mut n: u128 = 0;
    let mut i: usize = 0;
    assert(s@.take(0) =~= Seq::<char>::empty());
    while i < s.len()
        invariant
            i <= s@.len(),
            n == byte_len(s@.take(i as int)),
            n <= 4 * i,
        decreases s@.len() - i,
    {
        assert(s@.take(i + 1).drop_last() == s@.take(i as int));
        n += char_bytes_of(s[i]);
        i += 1;
    }
    assert(s@.take(s@.len() as int) == s@);
    n
}

/// How many bytes a character has in UTF-8.
pub fn char_bytes_of(c: char) -> (n: u128)
    ensures
        n == char_bytes(c),
{
    let u: u32 = c as u32;
    if u < 0x80 {
        1
    } else if u < 0x800 {
        2
    } else if u < 0x1_0000 {
        3
    } else {
        4
    }
}

/// The order of texts by their characters: the order of `str`, since UTF-8
/// keeps the order of code points.
pub open spec fn text_le(a: Seq<char>, b: Seq<char>) -> bool
    decreases a.len(),
{
    if a.len() == 0 {
        true
    } else if b.len() == 0 {
        false
    } else if a[0] != b[0] {
        a[0] < b[0]
    } else {
        text_le(a.skip(1), b.skip(1))
    }
}

/// The order of texts is total.
pub proof fn lemma_text_order(a: Seq<char>, b: Seq<char>, c: Seq<char>)
    ensures
        text_le(a, a),
        text_le(a, b) || text_le(b, a),
        text_le(a, b) && text_le(b, a) ==> a == b,
        text_le(a, b) && text_le(b, c) ==> text_le(a, c),
    decreases a.len() + b.len() + c.len(),
{
    if a.len() > 0 {
        let e = Seq::<char>::empty();
        if b.len() == 0 || c.len() == 0 {
            lemma_text_order(
                a.skip(1),
                if b.len() == 0 {
                    e
                } else {
                    b.skip(1)
                },
                e,
            );
        } else {
            lemma_text_order(a.skip(1), b.skip(1), c.skip(1));
        }
        if b.len() > 0 && a[0] == b[0] && a.skip(1) == b.skip(1) {
            assert forall|i: int| 0 <= i < a.len() && a.len() == b.len() implies a[i] == b[i] by {
                if i > 0 {
                    assert(a.skip(1)[i - 1] == b.skip(1)[i - 1]);
                }
            }
            assert(a.skip(1).len() == b.skip(1).len());
            assert(a =~= b);
        }
    } else if b.len() == 0 {
        assert(a =~= b);
    }
}

/// Whether `a` comes no later than `b`.
pub fn text_le_of(a: &str, b: &str) -> (r: bool)
    ensures
        r == text_le(a@, b@),
{
    let x: Vec<char> = chars(a);
    let y: Vec<char> = chars(b);
    let mut i: usize = 0;
    assert(x@.skip(0) == x@ && y@.skip(0) == y@);
    while i < x.len() && i < y.len()
        invariant
            i <= x@.len(),
            i <= y@.len(),
            x@ == a@,
            y@ == b@,
            text_le(a@, b@) == text_le(x@.skip(i as int), y@.skip(i as int)),
        decreases x@.len() - i,
    {
        assert(x@.skip(i as int).skip(1) == x@.skip(i + 1));
        assert(y@.skip(i as int).skip(1) == y@.skip(i + 1));
        if x[i] != y[i] {
            return x[i] < y[i];
        }
        i += 1;
    }
    i == x.len()
}

} // verus!
