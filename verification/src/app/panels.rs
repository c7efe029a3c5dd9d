//! What the panels show of a pool, stated over a walk through its vdev tree.

use crate::app::frame::{
    all_leaf_names, counters_text, forest_lines, leaf_names, map_columns, map_heats, map_lines,
    tree_lines, vdev_spans,
};
use crate::app::report::{forest_report, tree_report, vdev_report};
use crate::collect::printed::state_word;
use crate::decimal::fixed_text;
use crate::model::{EreportView, PoolView, VdevNode, VdevRow, VdevState};
use crate::number::{decimal, lemma_decimal};
use crate::style::{Color, Style};
use crate::spread::law_cells_count_their_events;
use crate::surface::{
    assumed_size, cell_of, device_heat, device_heats, device_offsets, hits, law_map_loses_no_error,
    law_worst_device_first, total_hits,
};
use crate::text::repeat;
use crate::tree::{is_device, lemma_walk_all_split, walk, walk_all, Met};
use vstd::prelude::*;

verus! {

/// The names of the devices on a walk, in order.
pub open spec fn devices(w: Seq<Met>) -> Seq<Seq<char>>
    decreases w.len(),
{
    if w.len() == 0 {
        Seq::empty()
    } else if is_device(w[0].node) {
        seq![w[0].node.row.name] + devices(w.skip(1))
    } else {
        devices(w.skip(1))
    }
}

/// How many devices a tree has: one where nothing stands below the root, otherwise
/// those below it.
pub open spec fn device_count(n: VdevNode) -> nat
    decreases n,
{
    if n.children.len() == 0 {
        1
    } else {
        all_device_count(n.children)
    }
}

/// How many devices some trees have.
pub open spec fn all_device_count(f: Seq<VdevNode>) -> nat
    decreases f,
{
    if f.len() == 0 {
        0
    } else {
        device_count(f[0]) + all_device_count(f.subrange(1, f.len() as int))
    }
}

proof fn lemma_devices_concat(a: Seq<Met>, b: Seq<Met>)
    ensures
        devices(a + b) == devices(a) + devices(b),
    decreases a.len(),
{
    if a.len() == 0 {
        assert(a + b == b);
        assert(devices(a) + devices(b) == devices(b));
    } else {
        assert((a + b)[0] == a[0]);
        assert((a + b).skip(1) == a.skip(1) + b);
        lemma_devices_concat(a.skip(1), b);
        let one = seq![a[0].node.row.name];
        assert(one + (devices(a.skip(1)) + devices(b)) == (one + devices(a.skip(1))) + devices(b));
    }
}

proof fn lemma_leaves_of(n: VdevNode, depth: nat)
    ensures
        leaf_names(n) == devices(walk(n, depth)),
    decreases n,
{
    let w = walk(n, depth);
    let below = walk_all(n.children, depth + 1);
    assert(w[0].node == n);
    assert(w.skip(1) == below);
    if n.children.len() == 0 {
        assert(below =~= Seq::<Met>::empty());
        assert(seq![n.row.name] + Seq::<Seq<char>>::empty() == seq![n.row.name]);
        assert(devices(below) =~= Seq::<Seq<char>>::empty());
    } else {
        lemma_leaves_of_all(n.children, depth + 1);
    }
}

proof fn lemma_leaves_of_all(f: Seq<VdevNode>, depth: nat)
    ensures
        all_leaf_names(f) == devices(walk_all(f, depth)),
    decreases f,
{
    if f.len() > 0 {
        let front = f.subrange(0, f.len() - 1);
        let last = f[f.len() - 1];
        lemma_leaves_of_all(front, depth);
        lemma_leaves_of(last, depth);
        lemma_walk_all_split(f, depth);
        lemma_devices_concat(walk_all(front, depth), walk(last, depth));
    } else {
        assert(devices(walk_all(f, depth)) =~= Seq::<Seq<char>>::empty());
    }
}

proof fn lemma_device_count(n: VdevNode, depth: nat)
    ensures
        devices(walk(n, depth)).len() == device_count(n),
    decreases n,
{
    let w = walk(n, depth);
    assert(w[0].node == n);
    assert(w.skip(1) == walk_all(n.children, depth + 1));
    lemma_all_device_count(n.children, depth + 1);
}

proof fn lemma_all_device_count(f: Seq<VdevNode>, depth: nat)
    ensures
        devices(walk_all(f, depth)).len() == all_device_count(f),
    decreases f,
{
    if f.len() > 0 {
        let rest = f.subrange(1, f.len() as int);
        lemma_device_count(f[0], depth);
        lemma_all_device_count(rest, depth);
        lemma_devices_concat(walk(f[0], depth), walk_all(rest, depth));
    }
}

proof fn lemma_devices_have(w: Seq<Met>)
    ensures
        forall|i: int|
            0 <= i < w.len() && is_device((#[trigger] w[i]).node) ==> devices(w).contains(
                w[i].node.row.name,
            ),
        forall|x: Seq<char>| #[trigger]
            devices(w).contains(x) ==> exists|i: int|
                0 <= i < w.len() && is_device((#[trigger] w[i]).node) && w[i].node.row.name == x,
    decreases w.len(),
{
    if w.len() > 0 {
        let t = w.skip(1);
        lemma_devices_have(t);
        let d = devices(w);
        let e = devices(t);
        let k: int = if is_device(w[0].node) {
            1
        } else {
            0
        };
        assert forall|j: int| 0 <= j < e.len() implies d[j + k] == #[trigger] e[j] by {}
        assert forall|i: int|
            0 <= i < w.len() && is_device((#[trigger] w[i]).node) implies d.contains(
            w[i].node.row.name,
        ) by {
            if i == 0 {
                assert(d[0] == w[0].node.row.name);
            } else {
                assert(t[i - 1] == w[i]);
                let j = choose|j: int| 0 <= j < e.len() && e[j] == w[i].node.row.name;
                assert(d[j + k] == e[j]);
            }
        }
        assert forall|x: Seq<char>| #[trigger] d.contains(x) implies exists|i: int|
            0 <= i < w.len() && is_device((#[trigger] w[i]).node) && w[i].node.row.name == x by {
            let j = choose|j: int| 0 <= j < d.len() && d[j] == x;
            if j < k {
                assert(w[0].node.row.name == x);
            } else {
                assert(e[j - k] == x);
                assert(e.contains(x));
                let i = choose|i: int|
                    0 <= i < t.len() && is_device((#[trigger] t[i]).node) && t[i].node.row.name
                        == x;
                assert(w[i + 1] == t[i]);
            }
        }
    }
}

/// The devices of the map are exactly the nodes without children, whatever their
/// states and counters are: there are as many as the tree has, each of them is
/// there, nothing else is, and they stand in the order in which the tree is walked.
pub proof fn law_map_has_every_device(n: VdevNode)
    ensures
        leaf_names(n).len() == device_count(n),
        forall|i: int|
            0 <= i < walk(n, 0).len() && (#[trigger] walk(n, 0)[i]).node.children.len() == 0
                ==> leaf_names(n).contains(walk(n, 0)[i].node.row.name),
        forall|x: Seq<char>| #[trigger]
            leaf_names(n).contains(x) ==> exists|i: int|
                0 <= i < walk(n, 0).len() && (#[trigger] walk(n, 0)[i]).node.children.len() == 0
                    && walk(n, 0)[i].node.row.name == x,
        leaf_names(n) == devices(walk(n, 0)),
{
    lemma_leaves_of(n, 0);
    lemma_device_count(n, 0);
    lemma_devices_have(walk(n, 0));
    let w = walk(n, 0);
    assert forall|i: int|
        0 <= i < w.len() && (#[trigger] w[i]).node.children.len() == 0 implies leaf_names(
        n,
    ).contains(w[i].node.row.name) by {
        assert(is_device(w[i].node));
    }
    assert forall|x: Seq<char>| #[trigger] leaf_names(n).contains(x) implies exists|i: int|
        0 <= i < w.len() && (#[trigger] w[i]).node.children.len() == 0 && w[i].node.row.name
            == x by {
        let i = choose|i: int|
            0 <= i < w.len() && is_device((#[trigger] w[i]).node) && w[i].node.row.name == x;
        assert(w[i].node.children.len() == 0);
    }
}

/// Two trees of the same shape and with the same names have the same devices: no
/// state and no counter takes a device off the map.
pub proof fn law_states_move_no_device(a: VdevNode, b: VdevNode)
    requires
        walk(a, 0).len() == walk(b, 0).len(),
        forall|i: int|
            0 <= i < walk(a, 0).len() ==> {
                let x = (#[trigger] walk(a, 0)[i]).node;
                let y = walk(b, 0)[i].node;
                x.row.name == y.row.name && x.children.len() == y.children.len()
            },
    ensures
        leaf_names(a) == leaf_names(b),
{
    lemma_leaves_of(a, 0);
    lemma_leaves_of(b, 0);
    lemma_same_devices(walk(a, 0), walk(b, 0));
}

proof fn lemma_same_devices(a: Seq<Met>, b: Seq<Met>)
    requires
        a.len() == b.len(),
        forall|i: int|
            0 <= i < a.len() ==> (#[trigger] a[i]).node.row.name == b[i].node.row.name
                && a[i].node.children.len() == b[i].node.children.len(),
    ensures
        devices(a) == devices(b),
    decreases a.len(),
{
    if a.len() > 0 {
        let x = a.skip(1);
        let y = b.skip(1);
        assert forall|i: int| 0 <= i < x.len() implies (#[trigger] x[i]).node.row.name
            == y[i].node.row.name && x[i].node.children.len() == y[i].node.children.len() by {
            assert(x[i] == a[i + 1]);
        }
        lemma_same_devices(x, y);
        assert(a[0].node.row.name == b[0].node.row.name);
    }
}

/// The tree panel has one line for each node on the walk, in order, and each is
/// indented as deep as its node stands.
pub proof fn law_tree_panel_follows_the_walk(n: VdevNode, depth: nat)
    ensures
        tree_lines(n, depth) == Seq::new(
            walk(n, depth).len(),
            |i: int| vdev_spans(walk(n, depth)[i].node.row, walk(n, depth)[i].depth),
        ),
    decreases n,
{
    lemma_forest_follows(n.children, depth + 1);
}

proof fn lemma_forest_follows(f: Seq<VdevNode>, depth: nat)
    ensures
        forest_lines(f, depth) == Seq::new(
            walk_all(f, depth).len(),
            |i: int| vdev_spans(walk_all(f, depth)[i].node.row, walk_all(f, depth)[i].depth),
        ),
    decreases f,
{
    if f.len() > 0 {
        let front = f.subrange(0, f.len() - 1);
        let last = f[f.len() - 1];
        lemma_forest_follows(front, depth);
        law_tree_panel_follows_the_walk(last, depth);
        lemma_walk_all_split(f, depth);
    }
}

/// The report has one line for each node on the walk, too.
pub proof fn law_report_follows_the_walk(n: VdevNode, depth: nat)
    ensures
        tree_report(n, depth) == Seq::new(
            walk(n, depth).len(),
            |i: int| vdev_report(walk(n, depth)[i].node.row, walk(n, depth)[i].depth),
        ),
    decreases n,
{
    lemma_forest_report_follows(n.children, depth + 1);
}

proof fn lemma_forest_report_follows(f: Seq<VdevNode>, depth: nat)
    ensures
        forest_report(f, depth) == Seq::new(
            walk_all(f, depth).len(),
            |i: int| vdev_report(walk_all(f, depth)[i].node.row, walk_all(f, depth)[i].depth),
        ),
    decreases f,
{
    if f.len() > 0 {
        let front = f.subrange(0, f.len() - 1);
        let last = f[f.len() - 1];
        lemma_forest_report_follows(front, depth);
        law_report_follows_the_walk(last, depth);
        lemma_walk_all_split(f, depth);
    }
}

/// What the counters of a vdev read: all three of them, where any is not zero, and
/// nothing otherwise.
pub proof fn law_counters_read(row: VdevRow)
    ensures
        row.read_err == 0 && row.write_err == 0 && row.checksum_err == 0 ==> counters_text(
            row,
        ).len() == 0,
        row.read_err != 0 || row.write_err != 0 || row.checksum_err != 0 ==> counters_text(row)
            == seq![' ', ' ', 'R', ':'] + decimal(row.read_err as nat) + seq![' ', 'W', ':']
            + decimal(row.write_err as nat) + seq![' ', 'C', ':'] + decimal(
            row.checksum_err as nat,
        ),
{
    reveal_strlit("  R:");
    reveal_strlit(" W:");
    reveal_strlit(" C:");
    assert("  R:"@ =~= seq![' ', ' ', 'R', ':']);
    assert(" W:"@ =~= seq![' ', 'W', ':']);
    assert(" C:"@ =~= seq![' ', 'C', ':']);
}

/// What the line of a vdev in the tree panel reads: two blanks for each level, the
/// name, the state in its color, the counters where there are errors, and the
/// percentage where it is rebuilt.
pub proof fn law_vdev_line_reads(row: VdevRow, depth: nat)
    ensures
        ({
            let l = vdev_spans(row, depth);
            let errors = row.read_err != 0 || row.write_err != 0 || row.checksum_err != 0;
            let color = match row.state {
                VdevState::Online => Color::Green,
                VdevState::Degraded => Color::Yellow,
                VdevState::Offline => Color::DarkGray,
                VdevState::Faulted => Color::Red,
                VdevState::Removed => Color::Red,
                VdevState::Unavail => Color::Red,
            };
            &&& l.len() == 3 + (if errors {
                1int
            } else {
                0
            }) + (if row.rebuild_pct is Some {
                1int
            } else {
                0
            })
            &&& l[0].text.len() == 2 * depth + row.name.len()
            &&& forall|i: int| 0 <= i < 2 * depth ==> #[trigger] l[0].text[i] == ' '
            &&& l[0].text.skip(2 * depth as int) == row.name
            &&& l[1].text == seq![' ', ' ']
            &&& l[2].text == state_word(row.state)
            &&& l[2].style == (Style { fg: Some(color), bold: true })
            &&& errors ==> l[3].text == counters_text(row)
            &&& row.rebuild_pct matches Some(pct) ==> {
                &&& l.last().text == seq![' ', ' '] + fixed_text(pct) + seq!['%']
                &&& l.last().style == (Style { fg: Some(Color::Cyan), bold: true })
            }
        }),
{
    reveal_strlit("  ");
    reveal_strlit("%");
    assert("  "@ =~= seq![' ', ' ']);
    assert("%"@ =~= seq!['%']);
    reveal_strlit("  R:");
    assert("  R:"@.len() == 4);
    let l = vdev_spans(row, depth);
    assert(l[0].text == repeat(' ', 2 * depth) + row.name);
    assert(l[0].text.skip(2 * depth as int) =~= row.name);
    lemma_decimal(row.read_err as nat);
    let errors = row.read_err != 0 || row.write_err != 0 || row.checksum_err != 0;
    assert(counters_text(row).len() > 0 <==> errors);
}

/// How many ereports name a device.
pub open spec fn events_at(es: Seq<EreportView>, device: Seq<char>) -> nat {
    es.filter(|e: EreportView| e.vdev_path == device).len()
}

proof fn lemma_device_offsets(es: Seq<EreportView>, device: Seq<char>)
    ensures
        device_offsets(es, device) == es.filter(
            |e: EreportView| e.vdev_path == device,
        ).map_values(|e: EreportView| e.io_offset),
    decreases es.len(),
{
    reveal(Seq::filter);
    let p = |e: EreportView| e.vdev_path == device;
    let g = |e: EreportView| e.io_offset;
    if es.len() > 0 {
        lemma_device_offsets(es.drop_last(), device);
        let before = es.drop_last().filter(p);
        if p(es.last()) {
            assert(before.push(es.last()).map_values(g) =~= before.map_values(g).push(
                es.last().io_offset,
            ));
        }
    } else {
        assert(es.filter(p).map_values(g) =~= Seq::<u64>::empty());
    }
}

/// A device is given its own events: those that name it, all of them and no other,
/// in order.
pub proof fn law_device_has_its_own_events(es: Seq<EreportView>, device: Seq<char>)
    ensures
        device_offsets(es, device) == es.filter(
            |e: EreportView| e.vdev_path == device,
        ).map_values(|e: EreportView| e.io_offset),
        device_offsets(es, device).len() == events_at(es, device),
{
    lemma_device_offsets(es, device);
}

/// The sum of some cells.
pub open spec fn cell_sum(cells: Seq<u32>) -> nat
    decreases cells.len(),
{
    if cells.len() == 0 {
        0
    } else {
        cell_sum(cells.drop_last()) + cells.last() as nat
    }
}

proof fn lemma_hits_bound(offs: Seq<u64>, size: u64, cells: nat, cell: nat)
    ensures
        hits(offs, size, cells, cell) <= offs.len(),
    decreases offs.len(),
{
    if offs.len() > 0 {
        lemma_hits_bound(offs.drop_last(), size, cells, cell);
    }
}

proof fn lemma_cell_sum(offs: Seq<u64>, size: u64, cells: nat, n: nat)
    requires
        offs.len() <= u32::MAX,
    ensures
        cell_sum(Seq::new(n, |c: int| hits(offs, size, cells, c as nat) as u32)) == total_hits(
            offs,
            size,
            cells,
            n,
        ),
    decreases n,
{
    let s = Seq::new(n, |c: int| hits(offs, size, cells, c as nat) as u32);
    if n > 0 {
        let m = (n - 1) as nat;
        lemma_cell_sum(offs, size, cells, m);
        assert(s.drop_last() =~= Seq::new(m, |c: int| hits(offs, size, cells, c as nat) as u32));
        lemma_hits_bound(offs, size, cells, m);
    }
}

/// What the strip of a device says: its name, as many events as name it, and cells
/// that hold them all.
pub proof fn law_strip_counts_the_events(es: Seq<EreportView>, device: Seq<char>, cols: nat)
    requires
        es.len() <= u32::MAX,
        cols > 0,
    ensures
        ({
            let h = device_heat(es, device, cols);
            &&& h.name == device
            &&& h.total == events_at(es, device)
            &&& h.buckets.len() == cols
            &&& cell_sum(h.buckets) == events_at(es, device)
        }),
{
    let offs = device_offsets(es, device);
    law_device_has_its_own_events(es, device);
    lemma_offsets_bound(es, device);
    let size = crate::surface::assumed_size(offs);
    lemma_cell_sum(offs, size, cols, cols);
    law_map_loses_no_error(offs, size, cols);
}

proof fn lemma_offsets_bound(es: Seq<EreportView>, device: Seq<char>)
    ensures
        device_offsets(es, device).len() <= es.len(),
    decreases es.len(),
{
    if es.len() > 0 {
        lemma_offsets_bound(es.drop_last(), device);
    }
}

/// The map has a row for every device of the tree, with the number of its events.
/// A row for nothing but a device does not occur.
pub proof fn law_map_rows_are_the_devices(
    s: PoolView,
    es: Seq<EreportView>,
    inner_w: nat,
)
    requires
        es.len() <= u32::MAX,
    ensures
        map_heats(s, es, inner_w).len() == device_count(s.root),
        map_lines(s, es, inner_w).len() == device_count(s.root) + 2,
        forall|i: int|
            0 <= i < walk(s.root, 0).len() && (#[trigger] walk(
                s.root,
                0,
            )[i]).node.children.len() == 0 ==> exists|j: int|
                0 <= j < map_heats(s, es, inner_w).len() && (#[trigger] map_heats(
                    s,
                    es,
                    inner_w,
                )[j]).name == walk(s.root, 0)[i].node.row.name,
        forall|j: int|
            0 <= j < map_heats(s, es, inner_w).len() ==> {
                let h = #[trigger] map_heats(s, es, inner_w)[j];
                h.total == events_at(es, h.name) && leaf_names(s.root).contains(h.name)
            },
{
    broadcast use vstd::seq_lib::group_to_multiset_ensures;

    law_map_has_every_device(s.root);
    let names = leaf_names(s.root);
    let all = device_heats(es, names, map_columns(inner_w).1);
    let rows = map_heats(s, es, inner_w);
    law_worst_device_first(all);
    let w = walk(s.root, 0);
    assert forall|i: int|
        0 <= i < w.len() && (#[trigger] w[i]).node.children.len() == 0 implies exists|j: int|
        0 <= j < rows.len() && (#[trigger] rows[j]).name == w[i].node.row.name by {
        let k = choose|k: int| 0 <= k < names.len() && names[k] == w[i].node.row.name;
        assert(all[k].name == names[k]);
        assert(all.contains(all[k]));
        assert(all.to_multiset().count(all[k]) > 0);
        assert(rows.contains(all[k]));
        let j = choose|j: int| 0 <= j < rows.len() && rows[j] == all[k];
        assert(rows[j].name == w[i].node.row.name);
    }
    assert forall|j: int| 0 <= j < rows.len() implies ({
        let h = #[trigger] rows[j];
        h.total == events_at(es, h.name) && names.contains(h.name)
    }) by {
        let h = rows[j];
        assert(rows.contains(h));
        assert(rows.to_multiset().count(h) > 0);
        assert(all.contains(h));
        let k = choose|k: int| 0 <= k < all.len() && all[k] == h;
        assert(h == device_heat(es, names[k], map_columns(inner_w).1));
        assert(names[k] == h.name);
        law_device_has_its_own_events(es, h.name);
        lemma_offsets_bound(es, h.name);
    }
}

/// A strip runs from the start of the device to its end: its cell `c` holds the
/// events of the device whose offsets fall into that cell.
pub proof fn law_strip_runs_from_the_start(
    es: Seq<EreportView>,
    device: Seq<char>,
    cols: nat,
    c: int,
)
    requires
        es.len() <= u32::MAX,
        0 <= c < cols,
    ensures
        ({
            let h = device_heat(es, device, cols);
            let offs = es.filter(|e: EreportView| e.vdev_path == device).map_values(
                |e: EreportView| e.io_offset,
            );
            h.buckets[c] == offs.filter(
                |o: u64| cell_of(o, assumed_size(offs), cols) == c as nat,
            ).len()
        }),
{
    let offs = device_offsets(es, device);
    law_device_has_its_own_events(es, device);
    lemma_offsets_bound(es, device);
    let size = assumed_size(offs);
    lemma_hits_bound(offs, size, cols, c as nat);
    law_cells_count_their_events(offs, size, cols, c as nat);
}

} // verus!
