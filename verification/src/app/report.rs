//! The one-shot report: a snapshot as lines of text.

use crate::app::frame::{counters_text, push_counters, state_name, state_text};
use crate::model::{
    forest, lemma_children, progress_ratio, retry_needed, wants_retry, Ereport, PoolSnapshot,
    PoolView, ScanFunc, ScanState, ScanStats, VdevInfo, VdevNode, VdevRow,
};
use crate::number::{decimal, push_decimal};
use crate::text::{repeat, strings};
use crate::ui::{bytes_fraction, fraction_text, percent_text, progress_label};
use vstd::prelude::*;

verus! {

/// The name of a kind of scan.
pub open spec fn func_name(func: ScanFunc) -> Seq<char> {
    match func {
        ScanFunc::Resilver => "Resilver"@,
        ScanFunc::Scrub => "Scrub"@,
        ScanFunc::ErrorScrub => "ErrorScrub"@,
    }
}

/// The name of a state of a scan.
pub open spec fn scan_state_name(state: ScanState) -> Seq<char> {
    match state {
        ScanState::Idle => "Idle"@,
        ScanState::Scanning => "Scanning"@,
        ScanState::Finished => "Finished"@,
        ScanState::Canceled => "Canceled"@,
    }
}

/// The progress of a scan: percentage and byte fraction, as far as they are
/// known.
pub open spec fn progress_text(scan: ScanStats) -> Seq<char> {
    let label = percent_text(progress_ratio(scan));
    let bytes = fraction_text(scan.examined, scan.to_examine);
    if label.len() > 0 && bytes.len() > 0 {
        label + "  "@ + bytes
    } else {
        label + bytes
    }
}

/// The lines on the scan.
pub open spec fn scan_report(scan: Option<ScanStats>) -> Seq<Seq<char>> {
    match scan {
        Some(s) => {
            let first = "scan: "@ + func_name(s.func) + "/"@ + scan_state_name(s.state)
                + " errors="@ + decimal(s.errors as nat);
            if progress_text(s).len() > 0 {
                seq![first, "progress: "@ + progress_text(s)]
            } else {
                seq![first]
            }
        },
        None => seq!["scan: none"@],
    }
}

/// The line of one vdev, so many levels below the root.
pub open spec fn vdev_report(row: VdevRow, depth: nat) -> Seq<char> {
    "vdev: "@ + repeat(' ', 2 * depth) + row.name + " ["@ + state_text(row.state) + "]"@
        + counters_text(row)
}

/// The lines of a vdev tree, each node before those below it.
pub open spec fn tree_report(n: VdevNode, depth: nat) -> Seq<Seq<char>>
    decreases n,
{
    seq![vdev_report(n.row, depth)] + forest_report(n.children, depth + 1)
}

/// The lines of some vdev trees.
pub open spec fn forest_report(f: Seq<VdevNode>, depth: nat) -> Seq<Seq<char>>
    decreases f,
{
    if f.len() == 0 {
        Seq::empty()
    } else {
        forest_report(f.subrange(0, f.len() - 1), depth) + tree_report(f[f.len() - 1], depth)
    }
}

/// Whether, in words.
pub open spec fn yes_no(b: bool) -> Seq<char> {
    if b {
        "true"@
    } else {
        "false"@
    }
}

/// The report on a snapshot and a number of ereports.
pub open spec fn report(s: PoolView, ereports: nat) -> Seq<Seq<char>> {
    seq!["pool: "@ + s.name] + scan_report(s.scan) + seq![
        "retry_needed: "@ + yes_no(wants_retry(s)),
    ] + tree_report(s.root, 0) + seq!["ereports: "@ + decimal(ereports)]
}

fn push_scan(out: &mut Vec<String>, scan: &Option<ScanStats>)
    ensures
        strings(final(out)@) == strings(old(out)@) + scan_report(*scan),
{
    let ghost before = strings(out@);
    match scan {
        Some(s) => {
            let mut first = "scan: ".to_owned();
            let func = match s.func {
                ScanFunc::Resilver => "Resilver",
                ScanFunc::Scrub => "Scrub",
                ScanFunc::ErrorScrub => "ErrorScrub",
            };
            first.append(func);
            first.append("/");
            let state = match s.state {
                ScanState::Idle => "Idle",
                ScanState::Scanning => "Scanning",
                ScanState::Finished => "Finished",
                ScanState::Canceled => "Canceled",
            };
            first.append(state);
            first.append(" errors=");
            push_decimal(&mut first, s.errors as u128);
            out.push(first);
            let label = progress_label(s.progress());
            let bytes = bytes_fraction(s.examined, s.to_examine);
            let mut text = label.clone();
            if label.as_str().unicode_len() > 0 && bytes.as_str().unicode_len() > 0 {
                text.append("  ");
            }
            text.append(bytes.as_str());
            assert(text@ =~= progress_text(*s));
            if text.as_str().unicode_len() > 0 {
                let mut line = "progress: ".to_owned();
                line.append(text.as_str());
                out.push(line);
            }
        },
        None => {
            out.push("scan: none".to_owned());
        },
    }
    assert(strings(out@) =~= before + scan_report(*scan));
}

fn push_tree(vdev: &VdevInfo, pad: &str, out: &mut Vec<String>, Ghost(depth): Ghost<nat>)
    requires
        pad@ == repeat(' ', 2 * depth),
    ensures
        strings(final(out)@) == strings(old(out)@) + tree_report(vdev@, depth),
    decreases vdev,
{
    let ghost before = strings(out@);
    let ghost n = vdev@;
    proof {
        lemma_children(*vdev);
    }
    let mut line = "vdev: ".to_owned();
    line.append(pad);
    line.append(vdev.name.as_str());
    line.append(" [");
    line.append(state_name(vdev.state));
    line.append("]");
    push_counters(&mut line, vdev);
    assert(line@ == vdev_report(n.row, depth));
    out.push(line);
    let mut deeper = pad.to_owned();
    deeper.push(' ');
    deeper.push(' ');
    proof {
        assert(deeper@ =~= repeat(' ', 2 * (depth + 1)));
        assert(strings(out@) =~= before + seq![vdev_report(n.row, depth)]);
        assert(n.children.subrange(0, 0) =~= Seq::<VdevNode>::empty());
        assert(forest_report(n.children.subrange(0, 0), depth + 1) =~= Seq::<Seq<char>>::empty());
    }
    let mut i: usize = 0;
    while i < vdev.children.len()
        invariant
            i <= vdev.children@.len(),
            n == vdev@,
            n.children == forest(vdev.children@),
            deeper@ == repeat(' ', 2 * (depth + 1)),
            strings(out@) == before + seq![vdev_report(n.row, depth)] + forest_report(
                n.children.subrange(0, i as int),
                depth + 1,
            ),
        decreases vdev.children@.len() - i,
    {
        let ghost so_far = strings(out@);
        push_tree(&vdev.children[i], deeper.as_str(), out, Ghost(depth + 1));
        proof {
            let part = n.children.subrange(0, i + 1);
            assert(part.subrange(0, part.len() - 1) == n.children.subrange(0, i as int));
            assert(part[part.len() - 1] == vdev.children@[i as int]@);
            assert(before + seq![vdev_report(n.row, depth)] + (forest_report(
                n.children.subrange(0, i as int),
                depth + 1,
            ) + tree_report(part[part.len() - 1], depth + 1)) == so_far + tree_report(
                part[part.len() - 1],
                depth + 1,
            ));
        }
        i += 1;
    }
    proof {
        assert(n.children.subrange(0, n.children.len() as int) == n.children);
        assert(before + (seq![vdev_report(n.row, depth)] + forest_report(n.children, depth + 1))
            == before + seq![vdev_report(n.row, depth)] + forest_report(n.children, depth + 1));
    }
}

/// The human-readable report on a snapshot, line by line.
pub fn once_output(snapshot: &PoolSnapshot, ereports: &[Ereport]) -> (r: Vec<String>)
    ensures
        strings(r@) == report(snapshot@, ereports@.len()),
{
    let mut r: Vec<String> = Vec::new();
    let mut name = "pool: ".to_owned();
    name.append(snapshot.name.as_str());
    r.push(name);
    assert(strings(r@) =~= seq!["pool: "@ + snapshot@.name]);
    push_scan(&mut r, &snapshot.scan);
    let ghost before = strings(r@);
    let mut retry = "retry_needed: ".to_owned();
    if retry_needed(snapshot) {
        retry.append("true");
    } else {
        retry.append("false");
    }
    r.push(retry);
    proof {
        assert(strings(r@) =~= before + seq!["retry_needed: "@ + yes_no(wants_retry(snapshot@))]);
        assert(""@ =~= repeat(' ', 0)) by {
            reveal_strlit("");
        }
    }
    push_tree(&snapshot.root, "", &mut r, Ghost(0));
    let ghost before = strings(r@);
    let mut count = "ereports: ".to_owned();
    push_decimal(&mut count, ereports.len() as u128);
    r.push(count);
    assert(strings(r@) =~= before + seq!["ereports: "@ + decimal(ereports@.len())]);
    r
}

} // verus!
