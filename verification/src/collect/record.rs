//! A scan kstat, as the kernel writes it, is read back.
//!
//! The laws here write a record line by line, a name, a type and a number in each,
//! and say what [`crate::collect::kstat`] makes of it.

use crate::collect::kstat::{
    counter_field, field, fields_of, kstat_sample, number_field, pool_names, recorded_scan,
    KstatEntry,
};
use crate::model::{ScanFunc, ScanState, ScanStats, Timestamp, VdevState};
use crate::number::{decimal, law_written_numbers_read_back};
use crate::text::words;
use crate::writing::{
    are_gaps, are_lines, are_words, blanks, ended, law_lines_are_found, law_words_are_found,
    spaced,
};
use vstd::prelude::*;

verus! {

/// Whether the line `l` is the words `ws` between blanks and tabs.
pub open spec fn is_written(l: Seq<char>, ws: Seq<Seq<char>>) -> bool {
    &&& are_words(ws)
    &&& exists|gaps: Seq<Seq<char>>, tail: Seq<char>|
        are_gaps(gaps, ws) && blanks(tail) && l == #[trigger] (spaced(gaps, ws) + tail)
}

/// Whether the lines `ls` are the words `rec`, line by line.
pub open spec fn are_written(ls: Seq<Seq<char>>, rec: Seq<Seq<Seq<char>>>) -> bool {
    &&& ls.len() == rec.len()
    &&& forall|i: int| 0 <= i < ls.len() ==> is_written(#[trigger] ls[i], rec[i])
}

/// Whether the words of a line give the field `key` a value.
pub open spec fn names(ws: Seq<Seq<char>>, key: Seq<char>) -> bool {
    ws.len() >= 3 && ws[0] == key
}

/// Whether a record gives the field `key` the number `n`: its last line for that
/// field does. For no number, whether it has no such line.
pub open spec fn gives(rec: Seq<Seq<Seq<char>>>, key: Seq<char>, n: Option<u64>) -> bool {
    match n {
        Some(n) => exists|i: int|
            0 <= i < rec.len() && names(#[trigger] rec[i], key) && rec[i][2] == decimal(n as nat)
                && forall|j: int| i < j < rec.len() ==> !names(#[trigger] rec[j], key),
        None => forall|j: int| 0 <= j < rec.len() ==> !names(#[trigger] rec[j], key),
    }
}

/// A number, or zero where there is none.
pub open spec fn or_zero(n: Option<u64>) -> u64 {
    match n {
        Some(n) => n,
        None => 0,
    }
}

/// A time in seconds. Zero is no time.
pub open spec fn time_of(n: Option<u64>) -> Option<Timestamp> {
    if or_zero(n) == 0 {
        None
    } else {
        Some(Timestamp { secs: or_zero(n) as i128, nanos: 0 })
    }
}

proof fn lemma_written(l: Seq<char>, ws: Seq<Seq<char>>)
    requires
        is_written(l, ws),
    ensures
        words(l) == ws,
{
    let (gaps, tail) = choose|gaps: Seq<Seq<char>>, tail: Seq<char>|
        are_gaps(gaps, ws) && blanks(tail) && l == #[trigger] (spaced(gaps, ws) + tail);
    law_words_are_found(gaps, ws, tail);
}

proof fn lemma_field_absent(ls: Seq<Seq<char>>, rec: Seq<Seq<Seq<char>>>, key: Seq<char>)
    requires
        are_written(ls, rec),
        forall|j: int| 0 <= j < rec.len() ==> !names(#[trigger] rec[j], key),
    ensures
        field(ls, key) is None,
    decreases ls.len(),
{
    if ls.len() > 0 {
        let k = ls.len() - 1;
        assert(is_written(ls[k], rec[k]));
        lemma_written(ls[k], rec[k]);
        assert(!names(rec[k], key));
        let l = ls.drop_last();
        let r = rec.drop_last();
        assert forall|i: int| 0 <= i < l.len() implies is_written(#[trigger] l[i], r[i]) by {
            assert(l[i] == ls[i]);
        }
        assert forall|j: int| 0 <= j < r.len() implies !names(#[trigger] r[j], key) by {
            assert(r[j] == rec[j]);
        }
        lemma_field_absent(l, r, key);
    }
}

proof fn lemma_field_at(ls: Seq<Seq<char>>, rec: Seq<Seq<Seq<char>>>, key: Seq<char>, i: int)
    requires
        are_written(ls, rec),
        0 <= i < rec.len(),
        names(rec[i], key),
        forall|j: int| i < j < rec.len() ==> !names(#[trigger] rec[j], key),
    ensures
        field(ls, key) == Some(rec[i][2]),
    decreases ls.len(),
{
    let k = ls.len() - 1;
    assert(is_written(ls[k], rec[k]));
    lemma_written(ls[k], rec[k]);
    if i < k {
        assert(!names(rec[k], key));
        let l = ls.drop_last();
        let r = rec.drop_last();
        assert forall|j: int| 0 <= j < l.len() implies is_written(#[trigger] l[j], r[j]) by {
            assert(l[j] == ls[j]);
        }
        assert forall|j: int| i < j < r.len() implies !names(#[trigger] r[j], key) by {
            assert(r[j] == rec[j]);
        }
        lemma_field_at(l, r, key, i);
    }
}

/// The number in a field is the one that the last line with its name gives, wherever
/// that line stands and whatever blanks it is written with.
pub proof fn law_numbers_are_found(
    ls: Seq<Seq<char>>,
    rec: Seq<Seq<Seq<char>>>,
    key: Seq<char>,
    n: Option<u64>,
)
    requires
        are_written(ls, rec),
        gives(rec, key, n),
    ensures
        number_field(ls, key) == n,
        counter_field(ls, key) == or_zero(n),
{
    match n {
        Some(v) => {
            let i = choose|i: int|
                0 <= i < rec.len() && names(#[trigger] rec[i], key) && rec[i][2] == decimal(
                    v as nat,
                ) && forall|j: int| i < j < rec.len() ==> !names(#[trigger] rec[j], key);
            lemma_field_at(ls, rec, key, i);
            law_written_numbers_read_back(v);
        },
        None => {
            lemma_field_absent(ls, rec, key);
        },
    }
}

/// The numbers that a record holds.
pub struct Recorded {
    pub func: Option<u64>,
    pub state: Option<u64>,
    pub start_time: Option<u64>,
    pub end_time: Option<u64>,
    pub to_examine: Option<u64>,
    pub examined: Option<u64>,
    pub processed: Option<u64>,
    pub skipped: Option<u64>,
    pub errors: Option<u64>,
    pub issued: Option<u64>,
    pub pass_exam: Option<u64>,
}

/// Whether a record holds the numbers `d`, each in the field of its name.
pub open spec fn gives_all(rec: Seq<Seq<Seq<char>>>, d: Recorded) -> bool {
    &&& gives(rec, "func"@, d.func)
    &&& gives(rec, "state"@, d.state)
    &&& gives(rec, "start_time"@, d.start_time)
    &&& gives(rec, "end_time"@, d.end_time)
    &&& gives(rec, "to_examine"@, d.to_examine)
    &&& gives(rec, "examined"@, d.examined)
    &&& gives(rec, "processed"@, d.processed)
    &&& gives(rec, "skipped"@, d.skipped)
    &&& gives(rec, "errors"@, d.errors)
    &&& gives(rec, "issued"@, d.issued)
    &&& gives(rec, "pass_exam"@, d.pass_exam)
}

/// A record is read back: what is read of it is what was written into it. A scrub is
/// written as 1 and a resilver as 2; a running scan as 1, a finished one as 2, a
/// canceled one as 3. A record without a kind, a state or any time is no scan.
pub proof fn law_record_is_read_back(
    ls: Seq<Seq<char>>,
    rec: Seq<Seq<Seq<char>>>,
    d: Recorded,
    now: Timestamp,
)
    requires
        are_written(ls, rec),
        gives_all(rec, d),
    ensures
        recorded_scan(ls, now) is Some <==> (d.func == Some(1u64) || d.func == Some(2u64))
            && d.state is Some && (or_zero(d.start_time) > 0 || or_zero(d.end_time) > 0),
        recorded_scan(ls, now) matches Some(s) ==> {
            &&& s.func == ScanFunc::Scrub <==> d.func == Some(1u64)
            &&& s.func == ScanFunc::Resilver <==> d.func == Some(2u64)
            &&& s.state == ScanState::Scanning <==> d.state == Some(1u64)
            &&& s.state == ScanState::Finished <==> d.state == Some(2u64)
            &&& s.state == ScanState::Canceled <==> d.state == Some(3u64)
            &&& s.start_time == time_of(d.start_time)
            &&& s.end_time == time_of(d.end_time)
            &&& s.to_examine == or_zero(d.to_examine)
            &&& s.examined == or_zero(d.examined)
            &&& s.processed == or_zero(d.processed)
            &&& s.skipped == or_zero(d.skipped)
            &&& s.errors == or_zero(d.errors)
            &&& s.issued == or_zero(d.issued)
            &&& s.pass_exam == or_zero(d.pass_exam)
            &&& s.sampled_at == now
            &&& s.progress_override is None
        },
{
    law_numbers_are_found(ls, rec, "func"@, d.func);
    law_numbers_are_found(ls, rec, "state"@, d.state);
    law_numbers_are_found(ls, rec, "start_time"@, d.start_time);
    law_numbers_are_found(ls, rec, "end_time"@, d.end_time);
    law_numbers_are_found(ls, rec, "to_examine"@, d.to_examine);
    law_numbers_are_found(ls, rec, "examined"@, d.examined);
    law_numbers_are_found(ls, rec, "processed"@, d.processed);
    law_numbers_are_found(ls, rec, "skipped"@, d.skipped);
    law_numbers_are_found(ls, rec, "errors"@, d.errors);
    law_numbers_are_found(ls, rec, "issued"@, d.issued);
    law_numbers_are_found(ls, rec, "pass_exam"@, d.pass_exam);
}

/// The counters of a recorded scan are those of the fields of their names, whatever
/// the kind and the state of the scan are.
pub proof fn law_counters_are_the_fields(ls: Seq<Seq<char>>, now: Timestamp)
    ensures
        recorded_scan(ls, now) matches Some(s) ==> {
            &&& s.to_examine == counter_field(ls, "to_examine"@)
            &&& s.examined == counter_field(ls, "examined"@)
            &&& s.processed == counter_field(ls, "processed"@)
            &&& s.skipped == counter_field(ls, "skipped"@)
            &&& s.errors == counter_field(ls, "errors"@)
            &&& s.issued == counter_field(ls, "issued"@)
            &&& s.pass_exam == counter_field(ls, "pass_exam"@)
        },
{
}

proof fn lemma_other_fields(
    a: Seq<Seq<char>>,
    b: Seq<Seq<char>>,
    key: Seq<char>,
    other: Seq<char>,
)
    requires
        a.len() == b.len(),
        key != other,
        forall|i: int|
            0 <= i < a.len() ==> #[trigger] a[i] == b[i] || (names(words(a[i]), key) && names(
                words(b[i]),
                key,
            )),
    ensures
        field(a, other) == field(b, other),
    decreases a.len(),
{
    if a.len() > 0 {
        let k = a.len() - 1;
        assert(a[k] == b[k] || (names(words(a[k]), key) && names(words(b[k]), key)));
        let x = a.drop_last();
        let y = b.drop_last();
        assert forall|i: int| 0 <= i < x.len() implies #[trigger] x[i] == y[i] || (names(
            words(x[i]),
            key,
        ) && names(words(y[i]), key)) by {
            assert(x[i] == a[i]);
        }
        lemma_other_fields(x, y, key, other);
    }
}

/// Two records that differ only in the value of `state` give scans that differ only
/// in their state.
pub proof fn law_state_changes_only_the_state(
    a: Seq<Seq<char>>,
    b: Seq<Seq<char>>,
    now: Timestamp,
)
    requires
        a.len() == b.len(),
        forall|i: int|
            0 <= i < a.len() ==> #[trigger] a[i] == b[i] || (names(words(a[i]), "state"@)
                && names(words(b[i]), "state"@)),
        number_field(a, "state"@) is Some,
        number_field(b, "state"@) is Some,
    ensures
        recorded_scan(a, now) is Some <==> recorded_scan(b, now) is Some,
        recorded_scan(a, now) matches Some(s) ==> recorded_scan(b, now) matches Some(t) && t
            == (ScanStats { state: t.state, ..s }),
{
    reveal_strlit("state");
    reveal_strlit("func");
    reveal_strlit("start_time");
    reveal_strlit("end_time");
    reveal_strlit("to_examine");
    reveal_strlit("examined");
    reveal_strlit("processed");
    reveal_strlit("skipped");
    reveal_strlit("errors");
    reveal_strlit("issued");
    reveal_strlit("pass_exam");
    assert("state"@.len() == 5 && "func"@.len() == 4 && "start_time"@.len() == 10);
    assert("end_time"@.len() == 8 && "to_examine"@.len() == 10 && "examined"@.len() == 8);
    assert("processed"@.len() == 9 && "skipped"@.len() == 7 && "errors"@.len() == 6);
    assert("issued"@.len() == 6 && "pass_exam"@.len() == 9);
    lemma_other_fields(a, b, "state"@, "func"@);
    lemma_other_fields(a, b, "state"@, "start_time"@);
    lemma_other_fields(a, b, "state"@, "end_time"@);
    lemma_other_fields(a, b, "state"@, "to_examine"@);
    lemma_other_fields(a, b, "state"@, "examined"@);
    lemma_other_fields(a, b, "state"@, "processed"@);
    lemma_other_fields(a, b, "state"@, "skipped"@);
    lemma_other_fields(a, b, "state"@, "errors"@);
    lemma_other_fields(a, b, "state"@, "issued"@);
    lemma_other_fields(a, b, "state"@, "pass_exam"@);
}

/// Two records that differ only in the value of `func` give scans that differ only
/// in their kind.
pub proof fn law_func_changes_only_the_kind(a: Seq<Seq<char>>, b: Seq<Seq<char>>, now: Timestamp)
    requires
        a.len() == b.len(),
        forall|i: int|
            0 <= i < a.len() ==> #[trigger] a[i] == b[i] || (names(words(a[i]), "func"@) && names(
                words(b[i]),
                "func"@,
            )),
    ensures
        recorded_scan(a, now) matches Some(s) ==> (recorded_scan(b, now) matches Some(t) ==> t
            == (ScanStats { func: t.func, ..s })),
{
    reveal_strlit("state");
    reveal_strlit("func");
    reveal_strlit("start_time");
    reveal_strlit("end_time");
    reveal_strlit("to_examine");
    reveal_strlit("examined");
    reveal_strlit("processed");
    reveal_strlit("skipped");
    reveal_strlit("errors");
    reveal_strlit("issued");
    reveal_strlit("pass_exam");
    assert("state"@.len() == 5 && "func"@.len() == 4 && "start_time"@.len() == 10);
    assert("end_time"@.len() == 8 && "to_examine"@.len() == 10 && "examined"@.len() == 8);
    assert("processed"@.len() == 9 && "skipped"@.len() == 7 && "errors"@.len() == 6);
    assert("issued"@.len() == 6 && "pass_exam"@.len() == 9);
    lemma_other_fields(a, b, "func"@, "state"@);
    lemma_other_fields(a, b, "func"@, "start_time"@);
    lemma_other_fields(a, b, "func"@, "end_time"@);
    lemma_other_fields(a, b, "func"@, "to_examine"@);
    lemma_other_fields(a, b, "func"@, "examined"@);
    lemma_other_fields(a, b, "func"@, "processed"@);
    lemma_other_fields(a, b, "func"@, "skipped"@);
    lemma_other_fields(a, b, "func"@, "errors"@);
    lemma_other_fields(a, b, "func"@, "issued"@);
    lemma_other_fields(a, b, "func"@, "pass_exam"@);
}

proof fn lemma_header_at(before: Seq<Seq<char>>, rec: Seq<Seq<Seq<char>>>, rest: Seq<Seq<char>>)
    requires
        are_written(before, rec),
        forall|i: int|
            0 <= i < rec.len() ==> (#[trigger] rec[i]).len() < 2 || rec[i][0] != "name"@
                || rec[i][1] != "type"@,
    ensures
        fields_of(before + rest) == fields_of(rest),
    decreases before.len(),
{
    let ls = before + rest;
    if before.len() == 0 {
        assert(ls == rest);
    } else {
        assert(is_written(before[0], rec[0]));
        lemma_written(before[0], rec[0]);
        assert(rec[0].len() < 2 || rec[0][0] != "name"@ || rec[0][1] != "type"@);
        assert(ls[0] == before[0]);
        let b = before.skip(1);
        let r = rec.skip(1);
        assert(ls.skip(1) == b + rest);
        assert forall|i: int| 0 <= i < b.len() implies is_written(#[trigger] b[i], r[i]) by {
            assert(b[i] == before[i + 1]);
        }
        assert forall|i: int| 0 <= i < r.len() implies (#[trigger] r[i]).len() < 2 || r[i][0]
            != "name"@ || r[i][1] != "type"@ by {
            assert(r[i] == rec[i + 1]);
        }
        lemma_header_at(b, r, rest);
    }
}

/// A kstat file gives the sample that its fields record, named after the pool, with
/// a lone online vdev that has no errors for its tree. Whatever stands before the
/// header is skipped, and a file without a header gives nothing.
pub proof fn law_file_is_read_back(
    pool: Seq<char>,
    before: Seq<Seq<char>>,
    rec: Seq<Seq<Seq<char>>>,
    header: Seq<char>,
    titles: Seq<Seq<char>>,
    ls: Seq<Seq<char>>,
    now: Timestamp,
)
    requires
        are_lines(before + (seq![header] + ls)),
        are_written(before, rec),
        forall|i: int|
            0 <= i < rec.len() ==> (#[trigger] rec[i]).len() < 2 || rec[i][0] != "name"@
                || rec[i][1] != "type"@,
        is_written(header, titles),
        titles.len() >= 2,
        titles[0] == "name"@,
        titles[1] == "type"@,
    ensures
        ({
            let sample = kstat_sample(
                pool,
                ended(before + (seq![header] + ls), seq!['\n']),
                now,
            );
            &&& sample is Some <==> recorded_scan(ls, now) is Some
            &&& sample matches Some(v) ==> {
                &&& v.name == pool
                &&& v.scan == recorded_scan(ls, now)
                &&& v.sampled_at == now
                &&& v.root.children.len() == 0
                &&& v.root.row.name.len() == 0
                &&& v.root.row.state == VdevState::Online
                &&& v.root.row.read_err == 0
                &&& v.root.row.write_err == 0
                &&& v.root.row.checksum_err == 0
                &&& !v.root.row.is_rebuild_target
                &&& v.root.row.rebuild_pct is None
            }
        }),
        before.len() > 0 ==> kstat_sample(pool, ended(before, seq!['\n']), now) is None,
{
    let all = before + (seq![header] + ls);
    law_lines_are_found(all, seq!['\n']);
    lemma_header_at(before, rec, seq![header] + ls);
    lemma_written(header, titles);
    assert((seq![header] + ls)[0] == header);
    assert((seq![header] + ls).skip(1) == ls);
    assert forall|i: int| 0 <= i < before.len() implies crate::writing::is_line(
        #[trigger] before[i],
    ) by {
        assert(before[i] == all[i]);
    }
    law_lines_are_found(before, seq!['\n']);
    let none = Seq::<Seq<char>>::empty();
    lemma_header_at(before, rec, none);
    assert(before + none == before);
}

proof fn lemma_pool_names(entries: Seq<KstatEntry>)
    ensures
        forall|i: int|
            0 <= i < entries.len() && (#[trigger] entries[i]).is_dir && entries[i].has_guid
                ==> pool_names(entries).contains(entries[i].name@),
        forall|x: Seq<char>| #[trigger]
            pool_names(entries).contains(x) ==> exists|i: int|
                0 <= i < entries.len() && (#[trigger] entries[i]).is_dir && entries[i].has_guid
                    && entries[i].name@ == x,
        pool_names(entries).len() <= entries.len(),
    decreases entries.len(),
{
    if entries.len() > 0 {
        let d = entries.drop_last();
        let e = entries.last();
        lemma_pool_names(d);
        let p = pool_names(d);
        let q = pool_names(entries);
        assert forall|x: Seq<char>| p.contains(x) implies #[trigger] q.contains(x) by {
            let k = choose|k: int| 0 <= k < p.len() && p[k] == x;
            assert(q[k] == x);
        }
        assert forall|i: int|
            0 <= i < entries.len() && (#[trigger] entries[i]).is_dir
                && entries[i].has_guid implies q.contains(entries[i].name@) by {
            if i < d.len() {
                assert(d[i] == entries[i]);
                assert(p.contains(d[i].name@));
            } else {
                assert(q[p.len() as int] == e.name@);
            }
        }
        assert forall|x: Seq<char>| #[trigger] q.contains(x) implies exists|i: int|
            0 <= i < entries.len() && (#[trigger] entries[i]).is_dir && entries[i].has_guid
                && entries[i].name@ == x by {
            let k = choose|k: int| 0 <= k < q.len() && q[k] == x;
            if k < p.len() {
                assert(p[k] == x);
                assert(p.contains(x));
                let i = choose|i: int|
                    0 <= i < d.len() && (#[trigger] d[i]).is_dir && d[i].has_guid && d[i].name@
                        == x;
                assert(entries[i] == d[i]);
            } else {
                assert(entries[entries.len() - 1].name@ == x);
            }
        }
    }
}

/// The pools are the directories with a `guid`, all of them and nothing else.
pub proof fn law_pools_are_the_directories_with_a_guid(entries: Seq<KstatEntry>, x: Seq<char>)
    ensures
        pool_names(entries).contains(x) <==> exists|i: int|
            0 <= i < entries.len() && (#[trigger] entries[i]).is_dir && entries[i].has_guid
                && entries[i].name@ == x,
        (forall|i: int|
            0 <= i < entries.len() ==> (#[trigger] entries[i]).is_dir && entries[i].has_guid)
            ==> pool_names(entries).len() == entries.len(),
{
    lemma_pool_names(entries);
    if forall|i: int|
        0 <= i < entries.len() ==> (#[trigger] entries[i]).is_dir && entries[i].has_guid {
        lemma_all_pools(entries);
    }
}

proof fn lemma_all_pools(entries: Seq<KstatEntry>)
    requires
        forall|i: int|
            0 <= i < entries.len() ==> (#[trigger] entries[i]).is_dir && entries[i].has_guid,
    ensures
        pool_names(entries).len() == entries.len(),
    decreases entries.len(),
{
    if entries.len() > 0 {
        let d = entries.drop_last();
        assert forall|i: int| 0 <= i < d.len() implies (#[trigger] d[i]).is_dir
            && d[i].has_guid by {
            assert(d[i] == entries[i]);
        }
        lemma_all_pools(d);
        assert(entries[entries.len() - 1] == entries.last());
    }
}

} // verus!
