//! The scan kstat, `/proc/spl/kstat/zfs/<pool>/scan`.
//!
//! ```text
//! 33     34 scan
//! name   type data
//!
//! func       4    2
//! state      4    1
//! start_time 4    1726000000
//! ...
//! ```
//!
//! Everything up to the `name type data` header is skipped; every following
//! line is `name type value`. Fields are found by name, wherever they stand,
//! and unknown names are skipped. A missing file means that the pool has never
//! been scanned: absence, not failure.

use crate::model::{
    PoolSnapshot, PoolView, ScanFunc, ScanState, ScanStats, Timestamp, VdevInfo, VdevNode, VdevRow,
    VdevState,
};
use crate::number::{parse_u64, parse_u64_of};
use crate::text::{
    chars, is_text, lemma_text_order, lines, lines_of, strings, text_le, text_le_of, texts, words,
    words_of,
};
use vstd::prelude::*;
use vstd::relations::sorted_by;
use vstd::seq_lib::lemma_sorted_unique;

verus! {

/// Whether a line is the header in front of the fields.
pub open spec fn is_header(line: Seq<char>) -> bool {
    let ws = words(line);
    ws.len() >= 2 && ws[0] == "name"@ && ws[1] == "type"@
}

/// The lines behind the header.
pub open spec fn fields_of(ls: Seq<Seq<char>>) -> Option<Seq<Seq<char>>>
    decreases ls.len(),
{
    if ls.len() == 0 {
        None
    } else if is_header(ls[0]) {
        Some(ls.skip(1))
    } else {
        fields_of(ls.skip(1))
    }
}

/// The value of the field `key`: the third word of the last line that names it.
pub open spec fn field(ls: Seq<Seq<char>>, key: Seq<char>) -> Option<Seq<char>>
    decreases ls.len(),
{
    if ls.len() == 0 {
        None
    } else {
        let ws = words(ls.last());
        if ws.len() >= 3 && ws[0] == key {
            Some(ws[2])
        } else {
            field(ls.drop_last(), key)
        }
    }
}

/// The number in the field `key`.
pub open spec fn number_field(ls: Seq<Seq<char>>, key: Seq<char>) -> Option<u64> {
    match field(ls, key) {
        Some(v) => parse_u64(v),
        None => None,
    }
}

/// The counter in the field `key`: zero where there is none.
pub open spec fn counter_field(ls: Seq<Seq<char>>, key: Seq<char>) -> u64 {
    match number_field(ls, key) {
        Some(n) => n,
        None => 0,
    }
}

/// The time in the field `key`: none where it is zero.
pub open spec fn time_field(ls: Seq<Seq<char>>, key: Seq<char>) -> Option<Timestamp> {
    match number_field(ls, key) {
        Some(n) if n > 0 => Some(Timestamp { secs: n as i128, nanos: 0 }),
        _ => None,
    }
}

/// The kind of scan that a number stands for.
pub open spec fn func_of_code(n: u64) -> Option<ScanFunc> {
    if n == 1 {
        Some(ScanFunc::Scrub)
    } else if n == 2 {
        Some(ScanFunc::Resilver)
    } else {
        None
    }
}

/// The state that a number stands for.
pub open spec fn state_of_code(n: u64) -> ScanState {
    if n == 1 {
        ScanState::Scanning
    } else if n == 2 {
        ScanState::Finished
    } else if n == 3 {
        ScanState::Canceled
    } else {
        ScanState::Idle
    }
}

/// The scan that some fields record, if any. Zero for both times means that no
/// scan ever ran.
pub open spec fn recorded_scan(ls: Seq<Seq<char>>, now: Timestamp) -> Option<ScanStats> {
    match (number_field(ls, "func"@), number_field(ls, "state"@)) {
        (Some(f), Some(s)) => match func_of_code(f) {
            Some(func) if counter_field(ls, "start_time"@) != 0 || counter_field(ls, "end_time"@)
                != 0 => Some(
                ScanStats {
                    func,
                    state: state_of_code(s),
                    start_time: time_field(ls, "start_time"@),
                    end_time: time_field(ls, "end_time"@),
                    to_examine: counter_field(ls, "to_examine"@),
                    examined: counter_field(ls, "examined"@),
                    processed: counter_field(ls, "processed"@),
                    skipped: counter_field(ls, "skipped"@),
                    errors: counter_field(ls, "errors"@),
                    issued: counter_field(ls, "issued"@),
                    pass_exam: counter_field(ls, "pass_exam"@),
                    sampled_at: now,
                    progress_override: None,
                },
            ),
            _ => None,
        },
        _ => None,
    }
}

/// A lone vdev that is online and has no errors.
pub open spec fn placeholder(name: Seq<char>) -> VdevNode {
    VdevNode {
        row: VdevRow {
            name,
            state: VdevState::Online,
            is_rebuild_target: false,
            read_err: 0,
            write_err: 0,
            checksum_err: 0,
            rebuild_pct: None,
        },
        children: Seq::empty(),
    }
}

/// The observation that a scan kstat gives of a pool.
pub open spec fn kstat_sample(pool: Seq<char>, raw: Seq<char>, now: Timestamp) -> Option<
    PoolView,
> {
    match fields_of(lines(raw)) {
        Some(ls) => match recorded_scan(ls, now) {
            Some(scan) => Some(
                PoolView {
                    name: pool,
                    scan: Some(scan),
                    root: placeholder(Seq::empty()),
                    sampled_at: now,
                },
            ),
            None => None,
        },
        None => None,
    }
}

/// What a snapshot that may be missing says.
pub open spec fn sample_view(s: Option<PoolSnapshot>) -> Option<PoolView> {
    match s {
        Some(s) => Some(s@),
        None => None,
    }
}

fn is_header_of(line: &[char]) -> (b: bool)
    ensures
        b == is_header(line@),
{
    let ws: Vec<&[char]> = words_of(line);
    let ghost t = texts(ws@);
    if ws.len() < 2 {
        return false;
    }
    assert(t[0] == ws@[0]@ && t[1] == ws@[1]@);
    is_text(ws[0], "name") && is_text(ws[1], "type")
}

fn number_field_of(ls: &Vec<&[char]>, from: usize, key: &str) -> (r: Option<u64>)
    requires
        from <= ls@.len(),
    ensures
        r == number_field(texts(ls@).skip(from as int), key@),
{
    let ghost all = texts(ls@).skip(from as int);
    let mut i: usize = ls.len();
    assert(all.take(all.len() as int) == all);
    while i > from
        invariant
            from <= i <= ls@.len(),
            all == texts(ls@).skip(from as int),
            field(all, key@) == field(all.take(i - from), key@),
        decreases i - from,
    {
        let ghost here = all.take(i - from);
        assert(here.last() == ls@[i - 1]@);
        assert(here.drop_last() == all.take(i - from - 1));
        let ws: Vec<&[char]> = words_of(ls[i - 1]);
        let ghost t = texts(ws@);
        if ws.len() >= 3 {
            assert(t[0] == ws@[0]@ && t[2] == ws@[2]@);
            if is_text(ws[0], key) {
                return parse_u64_of(ws[2]);
            }
        }
        i -= 1;
    }
    None
}

fn counter_field_of(ls: &Vec<&[char]>, from: usize, key: &str) -> (r: u64)
    requires
        from <= ls@.len(),
    ensures
        r == counter_field(texts(ls@).skip(from as int), key@),
{
    match number_field_of(ls, from, key) {
        Some(n) => n,
        None => 0,
    }
}

fn time_field_of(ls: &Vec<&[char]>, from: usize, key: &str) -> (r: Option<Timestamp>)
    requires
        from <= ls@.len(),
    ensures
        r == time_field(texts(ls@).skip(from as int), key@),
{
    match number_field_of(ls, from, key) {
        Some(n) => if n > 0 {
            Some(Timestamp::from_secs(n))
        } else {
            None
        },
        None => None,
    }
}

/// A lone vdev, which stands for the topology where none is known.
pub fn placeholder_root(name: String) -> (r: VdevInfo)
    ensures
        r@ == placeholder(name@),
{
    let r = VdevInfo {
        name,
        state: VdevState::Online,
        is_rebuild_target: false,
        read_err: 0,
        write_err: 0,
        checksum_err: 0,
        rebuild_pct: None,
        children: Vec::new(),
    };
    assert(r@.children =~= Seq::<VdevNode>::empty());
    r
}

fn read_fields(ls: &Vec<&[char]>, from: usize, now: Timestamp) -> (r: Option<ScanStats>)
    requires
        from <= ls@.len(),
    ensures
        r == recorded_scan(texts(ls@).skip(from as int), now),
{
    let func = match number_field_of(ls, from, "func") {
        Some(1) => ScanFunc::Scrub,
        Some(2) => ScanFunc::Resilver,
        _ => {
            return None;
        },
    };
    let state = match number_field_of(ls, from, "state") {
        Some(1) => ScanState::Scanning,
        Some(2) => ScanState::Finished,
        Some(3) => ScanState::Canceled,
        Some(_) => ScanState::Idle,
        None => {
            return None;
        },
    };
    if counter_field_of(ls, from, "start_time") == 0 && counter_field_of(ls, from, "end_time")
        == 0 {
        return None;
    }
    Some(
        ScanStats {
            func,
            state,
            start_time: time_field_of(ls, from, "start_time"),
            end_time: time_field_of(ls, from, "end_time"),
            to_examine: counter_field_of(ls, from, "to_examine"),
            examined: counter_field_of(ls, from, "examined"),
            processed: counter_field_of(ls, from, "processed"),
            skipped: counter_field_of(ls, from, "skipped"),
            errors: counter_field_of(ls, from, "errors"),
            issued: counter_field_of(ls, from, "issued"),
            pass_exam: counter_field_of(ls, from, "pass_exam"),
            sampled_at: now,
            progress_override: None,
        },
    )
}

/// Parses the textual content of a scan kstat.
pub fn parse_scan_kstat(pool: &str, raw: &str, now: Timestamp) -> (r: Option<PoolSnapshot>)
    ensures
        sample_view(r) == kstat_sample(pool@, raw@, now),
{
    let all: Vec<char> = chars(raw);
    let ls: Vec<&[char]> = lines_of(all.as_slice());
    let ghost seen = texts(ls@);
    let mut i: usize = 0;
    assert(seen.skip(0) == seen);
    while i < ls.len() && !is_header_of(ls[i])
        invariant
            i <= ls@.len(),
            seen == texts(ls@),
            fields_of(seen) == fields_of(seen.skip(i as int)),
        decreases ls@.len() - i,
    {
        assert(seen.skip(i as int)[0] == ls@[i as int]@);
        assert(seen.skip(i as int).skip(1) == seen.skip(i + 1));
        i += 1;
    }
    if i == ls.len() {
        return None;
    }
    proof {
        assert(seen.skip(i as int)[0] == ls@[i as int]@);
        assert(seen.skip(i as int).skip(1) == seen.skip(i + 1));
    }
    match read_fields(&ls, i + 1, now) {
        Some(scan) => {
            let name = String::new();
            assert(name@ =~= Seq::<char>::empty());
            Some(
                PoolSnapshot {
                    name: pool.to_owned(),
                    scan: Some(scan),
                    root: placeholder_root(name),
                    sampled_at: now,
                },
            )
        },
        None => None,
    }
}

/// What came of reading the scan kstat file of a pool.
#[derive(Debug, PartialEq)]
pub enum ScanFile {
    /// The file is absent.
    Missing,
    /// The file is there but could not be read, for the given reason.
    Unreadable(String),
    /// What the file holds.
    Text(String),
}

/// The observation of one pool from its scan kstat file.
///
/// * `Ok(None)`: the pool has no scan record, or the file is absent.
/// * `Ok(Some(snapshot))`: a parsed sample.
/// * `Err(_)`: the file exists and could not be read.
pub fn read_scan(pool: &str, file: ScanFile, now: Timestamp) -> (r: Result<
    Option<PoolSnapshot>,
    String,
>)
    ensures
        match file {
            ScanFile::Missing => r matches Ok(s) && s is None,
            ScanFile::Unreadable(e) => r == Err::<Option<PoolSnapshot>, String>(e),
            ScanFile::Text(raw) => r matches Ok(s) && sample_view(s) == kstat_sample(
                pool@,
                raw@,
                now,
            ),
        },
{
    match file {
        ScanFile::Missing => Ok(None),
        ScanFile::Unreadable(e) => Err(e),
        ScanFile::Text(raw) => Ok(parse_scan_kstat(pool, raw.as_str(), now)),
    }
}

/// One entry of the kstat directory.
#[derive(Debug, PartialEq)]
pub struct KstatEntry {
    pub name: String,
    pub is_dir: bool,
    /// Whether the entry holds a file `guid`.
    pub has_guid: bool,
}

/// The names of the entries that belong to a pool: directories that hold a
/// `guid`. Global kstats (arcstats, dmu_tx, ...) have none.
pub open spec fn pool_names(entries: Seq<KstatEntry>) -> Seq<Seq<char>>
    decreases entries.len(),
{
    if entries.len() == 0 {
        Seq::empty()
    } else {
        let e = entries.last();
        let before = pool_names(entries.drop_last());
        if e.is_dir && e.has_guid {
            before.push(e.name@)
        } else {
            before
        }
    }
}

/// The order of texts by their characters.
pub open spec fn by_text() -> spec_fn(Seq<char>, Seq<char>) -> bool {
    |a: Seq<char>, b: Seq<char>| text_le(a, b)
}

/// Puts a name where it belongs in a sorted list.
fn insert_name(names: &mut Vec<String>, name: String)
    requires
        sorted_by(strings(old(names)@), by_text()),
    ensures
        sorted_by(strings(final(names)@), by_text()),
        strings(final(names)@).to_multiset() == strings(old(names)@).push(name@).to_multiset(),
{
    broadcast use vstd::seq_lib::group_to_multiset_ensures;

    let ghost before = strings(names@);
    let mut i: usize = names.len();
    while i > 0 && !text_le_of(names[i - 1].as_str(), name.as_str())
        invariant
            i <= names@.len(),
            before == strings(names@),
            sorted_by(before, by_text()),
            forall|k: int| i <= k < names@.len() ==> text_le(name@, #[trigger] before[k]),
        decreases i,
    {
        proof {
            lemma_text_order(before[i - 1], name@, name@);
        }
        i -= 1;
    }
    names.insert(i, name);
    let ghost after = strings(names@);
    proof {
        assert(after == before.insert(i as int, name@));
        assert forall|a: int, b: int| 0 <= a < b < after.len() implies #[trigger] by_text()(
            after[a],
            after[b],
        ) by {
            if a < i && i < b {
                assert(by_text()(before[a], before[b - 1]));
            } else if a < i && b < i {
                assert(by_text()(before[a], before[b]));
            } else if i < a {
                assert(by_text()(before[a - 1], before[b - 1]));
            } else if a == i {
                assert(text_le(name@, before[b - 1]));
            } else {
                assert(before[i - 1] == names@[i - 1]@);
                if a < i - 1 {
                    assert(by_text()(before[a], before[i - 1]));
                    lemma_text_order(before[a], before[i - 1], name@);
                }
            }
        }
        assert(before.push(name@).to_multiset() == before.to_multiset().insert(name@));
        assert(after.to_multiset() == before.to_multiset().insert(name@));
    }
}

/// The ZFS pools among the entries of the kstat directory, in order of their
/// names.
///
/// A pool that has never run a scan has no `scan` file but is still observable,
/// so only the `guid` entry counts.
pub fn list_pools(entries: &Vec<KstatEntry>) -> (r: Vec<String>)
    ensures
        sorted_by(strings(r@), by_text()),
        strings(r@).to_multiset() == pool_names(entries@).to_multiset(),
{
    broadcast use vstd::seq_lib::group_to_multiset_ensures;

    let mut pools: Vec<String> = Vec::new();
    let mut i: usize = 0;
    proof {
        assert(strings(pools@) =~= Seq::<Seq<char>>::empty());
        assert(entries@.take(0) =~= Seq::<KstatEntry>::empty());
    }
    while i < entries.len()
        invariant
            i <= entries@.len(),
            sorted_by(strings(pools@), by_text()),
            strings(pools@).to_multiset() == pool_names(entries@.take(i as int)).to_multiset(),
        decreases entries@.len() - i,
    {
        let ghost before = pool_names(entries@.take(i as int));
        let ghost held = strings(pools@);
        proof {
            assert(entries@.take(i + 1).drop_last() == entries@.take(i as int));
            assert(entries@.take(i + 1).last() == entries@[i as int]);
        }
        if entries[i].is_dir && entries[i].has_guid {
            let name = entries[i].name.clone();
            insert_name(&mut pools, name);
            proof {
                broadcast use vstd::seq_lib::group_to_multiset_ensures;

                assert(before.push(name@).to_multiset() == before.to_multiset().insert(name@));
                assert(held.push(name@).to_multiset() == held.to_multiset().insert(name@));
            }
        }
        i += 1;
    }
    assert(entries@.take(entries@.len() as int) == entries@);
    pools
}

/// The order in which a directory lists its entries does not matter: two
/// listings of the same pools are the same.
pub proof fn law_pool_order_is_fixed(a: Seq<Seq<char>>, b: Seq<Seq<char>>)
    requires
        sorted_by(a, by_text()),
        sorted_by(b, by_text()),
        a.to_multiset() == b.to_multiset(),
    ensures
        a == b,
{
    let le = by_text();
    assert forall|x: Seq<char>| #[trigger] le(x, x) by {
        lemma_text_order(x, x, x);
    }
    assert forall|x: Seq<char>, y: Seq<char>| #[trigger] le(x, y) && #[trigger] le(y, x) implies x
        == y by {
        lemma_text_order(x, y, x);
    }
    assert forall|x: Seq<char>, y: Seq<char>| #[trigger] le(x, y) || #[trigger] le(y, x) by {
        lemma_text_order(x, y, x);
    }
    assert forall|x: Seq<char>, y: Seq<char>, z: Seq<char>| #[trigger]
        le(x, y) && #[trigger] le(y, z) implies le(x, z) by {
        lemma_text_order(x, y, z);
    }
    lemma_sorted_unique(a, b, le);
}

/// A line whose first word is no known field, or which has no third word,
/// changes nothing of what is read.
pub proof fn law_unknown_fields_are_skipped(ls: Seq<Seq<char>>, line: Seq<char>, key: Seq<char>)
    requires
        words(line).len() < 3 || words(line)[0] != key,
    ensures
        field(ls.push(line), key) == field(ls, key),
{
    assert(ls.push(line).drop_last() == ls);
}

/// Fields are found wherever they stand: two neighbouring lines with different
/// names can change places.
pub proof fn law_field_order_does_not_matter(
    ls: Seq<Seq<char>>,
    a: Seq<char>,
    b: Seq<char>,
    rest: Seq<Seq<char>>,
    key: Seq<char>,
)
    requires
        words(a).len() < 3 || words(b).len() < 3 || words(a)[0] != words(b)[0],
    ensures
        field(ls.push(a).push(b) + rest, key) == field(ls.push(b).push(a) + rest, key),
    decreases rest.len(),
{
    let x = ls.push(a).push(b) + rest;
    let y = ls.push(b).push(a) + rest;
    if rest.len() == 0 {
        assert(x == ls.push(a).push(b) && y == ls.push(b).push(a));
        assert(ls.push(a).push(b).drop_last() == ls.push(a));
        assert(ls.push(a).drop_last() == ls);
        assert(ls.push(b).push(a).drop_last() == ls.push(b));
        assert(ls.push(b).drop_last() == ls);
        reveal_with_fuel(field, 3);
    } else {
        assert(x.drop_last() == ls.push(a).push(b) + rest.drop_last());
        assert(y.drop_last() == ls.push(b).push(a) + rest.drop_last());
        law_field_order_does_not_matter(ls, a, b, rest.drop_last(), key);
    }
}

/// Times of zero mean that no scan ever ran: nothing is reported, whatever the
/// other fields hold.
pub proof fn law_zero_times_are_no_scan(ls: Seq<Seq<char>>, now: Timestamp)
    requires
        counter_field(ls, "start_time"@) == 0,
        counter_field(ls, "end_time"@) == 0,
    ensures
        recorded_scan(ls, now) is None,
{
}

} // verus!
