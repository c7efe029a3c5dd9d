//! The error surface map: where on which device errors happen.
//!
//! The map is a normalized approximation. An offset is a *logical* vdev
//! offset, not a physical platter position.

use crate::binary64::{
    lemma_of_int, lemma_of_zero, lemma_quotient_of_ints, of_int, product, quotient, truncated,
    Binary64,
};
use crate::model::{Ereport, EreportView};
use crate::number::{decimal, push_decimal};
use crate::rounding::{
    lemma_integer_mono, lemma_of_int_mono, lemma_product_mono, lemma_quotient_mono,
};
use crate::style::Color;
use crate::text::{byte_len, byte_len_of, char_bytes, char_bytes_of, chars, push_chars, strings};
use vstd::prelude::*;
use vstd::slice::slice_subrange;

verus! {

/// The offsets of some ereports.
pub open spec fn offsets(v: Seq<&Ereport>) -> Seq<u64> {
    Seq::new(v.len(), |i: int| v[i].io_offset)
}

/// The cell that an offset falls into, of `cells` that share a device of
/// `size` bytes. Offsets beyond the end fall into the last one.
pub open spec fn cell_of(offset: u64, size: u64, cells: nat) -> nat {
    let inside = if offset < size {
        offset as nat
    } else {
        (size - 1) as nat
    };
    let cell = truncated(
        product(quotient(of_int(inside), of_int(size as nat)), of_int(cells)),
    ) as nat;
    if cell < cells {
        cell
    } else {
        (cells - 1) as nat
    }
}

/// How many of some offsets fall into a cell.
pub open spec fn hits(offs: Seq<u64>, size: u64, cells: nat, cell: nat) -> nat
    decreases offs.len(),
{
    if offs.len() == 0 {
        0
    } else {
        hits(offs.drop_last(), size, cells, cell) + if cell_of(offs.last(), size, cells) == cell {
            1nat
        } else {
            0
        }
    }
}

proof fn lemma_hits(offs: Seq<u64>, size: u64, cells: nat, cell: nat)
    ensures
        hits(offs, size, cells, cell) <= offs.len(),
    decreases offs.len(),
{
    if offs.len() > 0 {
        lemma_hits(offs.drop_last(), size, cells, cell);
    }
}

/// The cell that an offset falls into.
fn bucket(offset: u64, size: u64, cells: usize) -> (r: usize)
    requires
        size > 0,
        cells > 0,
    ensures
        r == cell_of(offset, size, cells as nat),
        r < cells,
{
    let inside: u64 = if offset < size {
        offset
    } else {
        size - 1
    };
    proof {
        lemma_of_int(size as nat);
    }
    let share = Binary64::from_u64(inside).over(Binary64::from_u64(size));
    let cell: u64 = share.times(Binary64::from_u64(cells as u64)).truncate();
    if cell < cells as u64 {
        cell as usize
    } else {
        cells - 1
    }
}

/// How many ereports fall into each of `cells` cells.
fn count_hits(ereports: &[&Ereport], size: u64, cells: usize) -> (r: Vec<u32>)
    requires
        ereports@.len() <= u32::MAX,
        ereports@.len() > 0 ==> size > 0 && cells > 0,
    ensures
        r@.len() == cells,
        forall|c: int|
            0 <= c < cells ==> #[trigger] r@[c] == hits(
                offsets(ereports@),
                size,
                cells as nat,
                c as nat,
            ),
{
    let ghost offs = offsets(ereports@);
    let mut counts: Vec<u32> = Vec::new();
    let mut k: usize = 0;
    while k < cells
        invariant
            k <= cells,
            counts@.len() == k,
            forall|c: int| 0 <= c < k ==> #[trigger] counts@[c] == 0,
        decreases cells - k,
    {
        counts.push(0);
        k += 1;
    }
    let mut i: usize = 0;
    assert(offs.take(0) =~= Seq::<u64>::empty());
    while i < ereports.len()
        invariant
            i <= ereports@.len(),
            ereports@.len() <= u32::MAX,
            ereports@.len() > 0 ==> size > 0 && cells > 0,
            offs == offsets(ereports@),
            counts@.len() == cells,
            forall|c: int|
                0 <= c < cells ==> #[trigger] counts@[c] == hits(
                    offs.take(i as int),
                    size,
                    cells as nat,
                    c as nat,
                ),
        decreases ereports@.len() - i,
    {
        let idx: usize = bucket(ereports[i].io_offset, size, cells);
        proof {
            assert(offs.take(i + 1).drop_last() == offs.take(i as int));
            assert(offs.take(i + 1).last() == ereports@[i as int].io_offset);
            lemma_hits(offs.take(i as int), size, cells as nat, idx as nat);
        }
        let n: u32 = counts[idx];
        counts.set(idx, n + 1);
        i += 1;
    }
    assert(offs.take(offs.len() as int) == offs);
    counts
}

/// Surface map: how many ereports landed in each cell, row by row.
#[must_use]
pub fn surface_grid(
    ereports: &[&Ereport],
    device_size: u64,
    cols: usize,
    rows: usize,
) -> (r: Vec<Vec<u32>>)
    requires
        cols * rows <= usize::MAX,
        ereports@.len() <= u32::MAX,
        ereports@.len() > 0 && device_size > 0 ==> cols > 0 && rows > 0,
    ensures
        r@.len() == rows,
        forall|y: int| 0 <= y < rows ==> (#[trigger] r@[y])@.len() == cols,
        forall|y: int, x: int|
            0 <= y < rows && 0 <= x < cols ==> #[trigger] r@[y]@[x] == (if device_size == 0 {
                0
            } else {
                hits(
                    offsets(ereports@),
                    device_size,
                    (cols * rows) as nat,
                    (y * cols + x) as nat,
                )
            }),
{
    let cells: usize = cols * rows;
    let ghost offs = if device_size == 0 {
        Seq::<u64>::empty()
    } else {
        offsets(ereports@)
    };
    assert(cells > 0 <==> cols > 0 && rows > 0) by (nonlinear_arith)
        requires
            cells == cols * rows,
    ;
    let counts: Vec<u32> = if device_size == 0 {
        let none: Vec<&Ereport> = Vec::new();
        assert(offsets(none@) =~= Seq::<u64>::empty());
        count_hits(none.as_slice(), device_size, cells)
    } else {
        count_hits(ereports, device_size, cells)
    };
    let mut grid: Vec<Vec<u32>> = Vec::new();
    let mut y: usize = 0;
    while y < rows
        invariant
            y <= rows,
            cells == cols * rows,
            counts@.len() == cells,
            grid@.len() == y,
            forall|b: int| 0 <= b < y ==> (#[trigger] grid@[b])@.len() == cols,
            forall|b: int, a: int|
                0 <= b < y && 0 <= a < cols ==> #[trigger] grid@[b]@[a] == counts@[b * cols + a],
        decreases rows - y,
    {
        let mut row: Vec<u32> = Vec::new();
        let mut x: usize = 0;
        while x < cols
            invariant
                x <= cols,
                y < rows,
                cells == cols * rows,
                counts@.len() == cells,
                row@.len() == x,
                forall|a: int| 0 <= a < x ==> #[trigger] row@[a] == counts@[y * cols + a],
            decreases cols - x,
        {
            assert(y * cols + x < cells) by (nonlinear_arith)
                requires
                    y < rows,
                    x < cols,
                    cells == cols * rows,
            ;
            assert(y * cols <= cells) by (nonlinear_arith)
                requires
                    y < rows,
                    cells == cols * rows,
            ;
            row.push(counts[y * cols + x]);
            x += 1;
        }
        grid.push(row);
        y += 1;
    }
    proof {
        assert forall|b: int, a: int| 0 <= b < rows && 0 <= a < cols implies #[trigger] grid@[b]@[a]
            == (if device_size == 0 {
            0
        } else {
            hits(offsets(ereports@), device_size, (cols * rows) as nat, (b * cols + a) as nat)
        }) by {
            assert(0 <= b * cols + a < cells) by (nonlinear_arith)
                requires
                    0 <= b < rows,
                    0 <= a < cols,
                    cells == cols * rows,
            ;
            assert(grid@[b]@[a] == counts@[b * cols + a]);
        }
    }
    grid
}

/// The sum of what all cells hold, up to `n` of them.
pub open spec fn total_hits(offs: Seq<u64>, size: u64, cells: nat, n: nat) -> nat
    decreases n,
{
    if n == 0 {
        0
    } else {
        total_hits(offs, size, cells, (n - 1) as nat) + hits(offs, size, cells, (n - 1) as nat)
    }
}

/// Every error falls into exactly one cell: the cells together hold as many as
/// there are.
pub proof fn law_map_loses_no_error(offs: Seq<u64>, size: u64, cells: nat)
    requires
        cells > 0,
    ensures
        total_hits(offs, size, cells, cells) == offs.len(),
    decreases offs.len(),
{
    if offs.len() == 0 {
        lemma_total_none(offs, size, cells, cells);
    } else {
        law_map_loses_no_error(offs.drop_last(), size, cells);
        lemma_total_one(offs, size, cells, cells);
    }
}

proof fn lemma_total_none(offs: Seq<u64>, size: u64, cells: nat, n: nat)
    requires
        offs.len() == 0,
    ensures
        total_hits(offs, size, cells, n) == 0,
    decreases n,
{
    if n > 0 {
        lemma_total_none(offs, size, cells, (n - 1) as nat);
    }
}

proof fn lemma_total_one(offs: Seq<u64>, size: u64, cells: nat, n: nat)
    requires
        offs.len() > 0,
    ensures
        total_hits(offs, size, cells, n) == total_hits(offs.drop_last(), size, cells, n) + (
        if cell_of(offs.last(), size, cells) < n {
            1nat
        } else {
            0
        }),
    decreases n,
{
    if n > 0 {
        lemma_total_one(offs, size, cells, (n - 1) as nat);
    }
}

/// The map keeps the order of offsets: left is the start of the device.
pub proof fn law_map_keeps_order(a: u64, b: u64, size: u64, cells: nat)
    requires
        a <= b,
        size > 0,
        0 < cells <= u64::MAX,
    ensures
        cell_of(a, size, cells) <= cell_of(b, size, cells) < cells,
{
    let x = if a < size {
        a as nat
    } else {
        (size - 1) as nat
    };
    let y = if b < size {
        b as nat
    } else {
        (size - 1) as nat
    };
    let d = of_int(size as nat);
    let c = of_int(cells);
    lemma_of_int(size as nat);
    lemma_of_int(cells);
    lemma_of_int_mono(x, y);
    lemma_quotient_of_ints(x, size as nat);
    lemma_quotient_of_ints(y, size as nat);
    if y == 0 {
        lemma_of_zero();
    } else {
        lemma_of_int(y);
    }
    let p = quotient(of_int(x), d);
    let q = quotient(of_int(y), d);
    lemma_quotient_mono(of_int(x), of_int(y), d);
    lemma_product_mono(p, q, c);
    lemma_integer_mono(product(p, c), product(q, c));
}

/// One device's row in the error surface list.
#[derive(Debug, PartialEq)]
pub struct DeviceHeat {
    pub name: String,
    /// Counts across the device (left = start of disk).
    pub buckets: Vec<u32>,
    /// Total events in the window for this device.
    pub total: u32,
}

/// What a row of the list says.
pub struct HeatView {
    pub name: Seq<char>,
    pub buckets: Seq<u32>,
    pub total: u32,
}

impl View for DeviceHeat {
    type V = HeatView;

    open spec fn view(&self) -> HeatView {
        HeatView { name: self.name@, buckets: self.buckets@, total: self.total }
    }
}

impl Clone for DeviceHeat {
    fn clone(&self) -> (r: Self)
        ensures
            r@ == self@,
    {
        let r = DeviceHeat {
            name: self.name.clone(),
            buckets: self.buckets.clone(),
            total: self.total,
        };
        assert(r@.buckets =~= self@.buckets);
        r
    }
}

/// What some rows say.
pub open spec fn heats(v: Seq<DeviceHeat>) -> Seq<HeatView> {
    Seq::new(v.len(), |i: int| v[i]@)
}

/// What some ereports say.
pub open spec fn reports_of(v: Seq<&Ereport>) -> Seq<EreportView> {
    Seq::new(v.len(), |i: int| v[i]@)
}

/// The offsets of the ereports of one device.
pub open spec fn device_offsets(reps: Seq<EreportView>, device: Seq<char>) -> Seq<u64>
    decreases reps.len(),
{
    if reps.len() == 0 {
        Seq::empty()
    } else {
        let before = device_offsets(reps.drop_last(), device);
        if reps.last().vdev_path == device {
            before.push(reps.last().io_offset)
        } else {
            before
        }
    }
}

/// The greatest of some offsets.
pub open spec fn greatest(offs: Seq<u64>) -> u64
    decreases offs.len(),
{
    if offs.len() == 0 {
        0
    } else {
        let before = greatest(offs.drop_last());
        if offs.last() > before {
            offs.last()
        } else {
            before
        }
    }
}

/// The size that a device is taken to have: just beyond its greatest offset.
/// Ereports carry only logical offsets, so a strip shows a distribution, not
/// absolute geometry.
pub open spec fn assumed_size(offs: Seq<u64>) -> u64 {
    if offs.len() == 0 {
        2
    } else if greatest(offs) == u64::MAX {
        u64::MAX
    } else {
        (greatest(offs) + 1) as u64
    }
}

/// At least one column.
pub open spec fn some_cols(cols: nat) -> nat {
    if cols == 0 {
        1
    } else {
        cols
    }
}

/// The strip of one device.
pub open spec fn device_heat(reps: Seq<EreportView>, device: Seq<char>, cols: nat) -> HeatView {
    let offs = device_offsets(reps, device);
    let n = some_cols(cols);
    HeatView {
        name: device,
        buckets: Seq::new(n, |c: int| hits(offs, assumed_size(offs), n, c as nat) as u32),
        total: offs.len() as u32,
    }
}

/// The strips of some devices, in their order.
pub open spec fn device_heats(
    reps: Seq<EreportView>,
    devices: Seq<Seq<char>>,
    cols: nat,
) -> Seq<HeatView> {
    Seq::new(devices.len(), |i: int| device_heat(reps, devices[i], cols))
}

/// Where a strip belongs in a list that has the worst first: behind all that
/// are at least as bad.
pub open spec fn rank_of(ranked: Seq<HeatView>, total: u32) -> nat
    decreases ranked.len(),
{
    if ranked.len() == 0 || ranked.last().total >= total {
        ranked.len()
    } else {
        rank_of(ranked.drop_last(), total)
    }
}

/// The strips with the worst first; among equals, the order stays.
pub open spec fn worst_first(s: Seq<HeatView>) -> Seq<HeatView>
    decreases s.len(),
{
    if s.len() == 0 {
        Seq::empty()
    } else {
        let before = worst_first(s.drop_last());
        before.insert(rank_of(before, s.last().total) as int, s.last())
    }
}

fn events_of<'a>(ereports: &[&'a Ereport], device: &String) -> (r: Vec<&'a Ereport>)
    ensures
        offsets(r@) == device_offsets(reports_of(ereports@), device@),
        r@.len() <= ereports@.len(),
{
    let ghost reps = reports_of(ereports@);
    let mut r: Vec<&'a Ereport> = Vec::new();
    let mut i: usize = 0;
    proof {
        assert(reps.take(0) =~= Seq::<EreportView>::empty());
        assert(offsets(r@) =~= Seq::<u64>::empty());
    }
    while i < ereports.len()
        invariant
            i <= ereports@.len(),
            reps == reports_of(ereports@),
            offsets(r@) == device_offsets(reps.take(i as int), device@),
            r@.len() <= i,
        decreases ereports@.len() - i,
    {
        let e = ereports[i];
        let ghost before = r@;
        proof {
            assert(reps.take(i + 1).drop_last() == reps.take(i as int));
            assert(reps.take(i + 1).last() == e@);
        }
        if e.vdev_path.eq(device) {
            r.push(e);
            assert(offsets(r@) == offsets(before).push(e.io_offset));
        }
        i += 1;
    }
    assert(reps.take(reps.len() as int) == reps);
    r
}

fn size_of_events(evs: &Vec<&Ereport>) -> (size: u64)
    ensures
        size == assumed_size(offsets(evs@)),
        size > 0,
{
    let ghost offs = offsets(evs@);
    let mut top: u64 = 0;
    let mut i: usize = 0;
    assert(offs.take(0) =~= Seq::<u64>::empty());
    while i < evs.len()
        invariant
            i <= evs@.len(),
            offs == offsets(evs@),
            top == greatest(offs.take(i as int)),
        decreases evs@.len() - i,
    {
        proof {
            assert(offs.take(i + 1).drop_last() == offs.take(i as int));
            assert(offs.take(i + 1).last() == evs@[i as int].io_offset);
        }
        if evs[i].io_offset > top {
            top = evs[i].io_offset;
        }
        i += 1;
    }
    assert(offs.take(offs.len() as int) == offs);
    if evs.len() == 0 {
        2
    } else if top == u64::MAX {
        u64::MAX
    } else {
        top + 1
    }
}

/// Per-device strips, sorted worst first.
///
/// Each device gets its own normalized strip: the map answers where on which
/// disk. Devices without events still appear, for a quiet row is information.
#[must_use]
pub fn device_heat_list(
    ereports: &[&Ereport],
    devices: &[String],
    cols: usize,
) -> (r: Vec<DeviceHeat>)
    requires
        ereports@.len() <= u32::MAX,
    ensures
        heats(r@) == worst_first(
            device_heats(reports_of(ereports@), strings(devices@), cols as nat),
        ),
{
    let ghost reps = reports_of(ereports@);
    let ghost all = device_heats(reps, strings(devices@), cols as nat);
    let n: usize = if cols == 0 {
        1
    } else {
        cols
    };
    let mut out: Vec<DeviceHeat> = Vec::new();
    let mut i: usize = 0;
    proof {
        assert(all.take(0) =~= Seq::<HeatView>::empty());
        assert(heats(out@) =~= Seq::<HeatView>::empty());
    }
    while i < devices.len()
        invariant
            i <= devices@.len(),
            ereports@.len() <= u32::MAX,
            n == some_cols(cols as nat),
            reps == reports_of(ereports@),
            all == device_heats(reps, strings(devices@), cols as nat),
            heats(out@) == worst_first(all.take(i as int)),
        decreases devices@.len() - i,
    {
        let evs: Vec<&Ereport> = events_of(ereports, &devices[i]);
        let size: u64 = size_of_events(&evs);
        let buckets: Vec<u32> = count_hits(evs.as_slice(), size, n);
        let total: u32 = evs.len() as u32;
        let d = DeviceHeat { name: devices[i].clone(), buckets, total };
        let ghost offs = device_offsets(reps, devices@[i as int]@);
        proof {
            assert(strings(devices@)[i as int] == devices@[i as int]@);
            assert forall|c: int| 0 <= c < n implies #[trigger] d.buckets@[c] == hits(
                offs,
                assumed_size(offs),
                n as nat,
                c as nat,
            ) as u32 by {
                lemma_hits(offs, size, n as nat, c as nat);
            }
            assert(d@.buckets =~= device_heat(reps, devices@[i as int]@, cols as nat).buckets);
            assert(d@ == all[i as int]);
            assert(all.take(i + 1).drop_last() == all.take(i as int));
            assert(all.take(i + 1).last() == d@);
        }
        insert_ranked(&mut out, d);
        i += 1;
    }
    assert(all.take(all.len() as int) == all);
    out
}

/// Puts a strip where it belongs.
fn insert_ranked(out: &mut Vec<DeviceHeat>, d: DeviceHeat)
    ensures
        heats(final(out)@) == heats(old(out)@).insert(
            rank_of(heats(old(out)@), d.total) as int,
            d@,
        ),
{
    let ghost before = heats(out@);
    let mut k: usize = out.len();
    assert(before.take(before.len() as int) == before);
    while k > 0 && out[k - 1].total < d.total
        invariant
            k <= out@.len(),
            before == heats(out@),
            rank_of(before, d.total) == rank_of(before.take(k as int), d.total),
        decreases k,
    {
        assert(before.take(k as int).drop_last() == before.take(k - 1));
        assert(before.take(k as int).last() == out@[k - 1]@);
        k -= 1;
    }
    proof {
        if k > 0 {
            assert(before.take(k as int).last() == out@[k - 1]@);
        }
        assert(rank_of(before, d.total) == k);
    }
    out.insert(k, d);
    assert(heats(out@) == before.insert(k as int, d@));
}

proof fn lemma_rank(s: Seq<HeatView>, total: u32)
    ensures
        rank_of(s, total) <= s.len(),
        rank_of(s, total) > 0 ==> s[rank_of(s, total) - 1].total >= total,
        forall|i: int| rank_of(s, total) <= i < s.len() ==> (#[trigger] s[i]).total < total,
    decreases s.len(),
{
    if !(s.len() == 0 || s.last().total >= total) {
        let t = s.drop_last();
        lemma_rank(t, total);
        assert forall|i: int| rank_of(s, total) <= i < s.len() implies (#[trigger] s[i]).total
            < total by {
            if i < t.len() {
                assert(t[i] == s[i]);
            }
        }
    }
}

/// The list has the worst device first, and shows every device exactly once.
pub proof fn law_worst_device_first(s: Seq<HeatView>)
    ensures
        forall|i: int, j: int|
            0 <= i <= j < worst_first(s).len() ==> (#[trigger] worst_first(s)[i]).total >= (
            #[trigger] worst_first(s)[j]).total,
        worst_first(s).to_multiset() == s.to_multiset(),
        worst_first(s).len() == s.len(),
    decreases s.len(),
{
    broadcast use vstd::seq_lib::group_to_multiset_ensures;

    if s.len() > 0 {
        let t = s.drop_last();
        law_worst_device_first(t);
        let before = worst_first(t);
        let x = s.last();
        let k = rank_of(before, x.total) as int;
        lemma_rank(before, x.total);
        let after = before.insert(k, x);
        assert forall|i: int, j: int| 0 <= i <= j < after.len() implies (#[trigger] after[i]).total
            >= (#[trigger] after[j]).total by {
            let a = if i < k {
                before[i].total
            } else if i == k {
                x.total
            } else {
                before[i - 1].total
            };
            let b = if j < k {
                before[j].total
            } else if j == k {
                x.total
            } else {
                before[j - 1].total
            };
            assert(after[i].total == a && after[j].total == b);
            if i < k && j == k {
                assert(before[i].total >= before[k - 1].total);
            }
        }
        assert(s == t.push(x));
        assert(t.push(x).to_multiset() == t.to_multiset().insert(x));
        assert(after.to_multiset() == before.to_multiset().insert(x));
    } else {
        assert(worst_first(s) =~= s);
    }
}

/// The strips with a given total, in order.
pub open spec fn with_total(s: Seq<HeatView>, total: u32) -> Seq<HeatView> {
    s.filter(|h: HeatView| h.total == total)
}

/// Devices with the same number of events keep their order.
pub proof fn law_ties_keep_order(s: Seq<HeatView>, total: u32)
    ensures
        with_total(worst_first(s), total) == with_total(s, total),
    decreases s.len(),
{
    reveal(Seq::filter);
    if s.len() > 0 {
        let t = s.drop_last();
        law_ties_keep_order(t, total);
        let before = worst_first(t);
        let x = s.last();
        let k = rank_of(before, x.total) as int;
        lemma_rank(before, x.total);
        lemma_filter_insert(before, k, x, total);
    }
}

/// Filtering a list into which a strip was put behind all of its total.
proof fn lemma_filter_insert(s: Seq<HeatView>, k: int, x: HeatView, total: u32)
    requires
        0 <= k <= s.len(),
        forall|i: int| k <= i < s.len() ==> (#[trigger] s[i]).total < x.total,
    ensures
        with_total(s.insert(k, x), total) == if x.total == total {
            with_total(s, total).push(x)
        } else {
            with_total(s, total)
        },
    decreases s.len() - k,
{
    reveal(Seq::filter);
    let after = s.insert(k, x);
    if k == s.len() {
        assert(after.drop_last() == s);
        assert(after.last() == x);
    } else {
        assert(after.last() == s.last());
        assert(after.drop_last() == s.drop_last().insert(k, x));
        lemma_filter_insert(s.drop_last(), k, x, total);
    }
}

/// The density character of a count.
pub open spec fn density(count: u32) -> char {
    if count == 0 {
        '·'
    } else if count <= 2 {
        '░'
    } else if count <= 6 {
        '▒'
    } else if count <= 15 {
        '▓'
    } else {
        '█'
    }
}

/// Density character for a heat cell.
#[must_use]
pub fn heat_char(count: u32) -> (c: char)
    ensures
        c == density(count),
{
    match count {
        0 => '·',
        1..=2 => '░',
        3..=6 => '▒',
        7..=15 => '▓',
        _ => '█',
    }
}

/// The color of a density character.
pub open spec fn density_color(c: char) -> Color {
    if c == '░' {
        Color::Yellow
    } else if c == '▒' {
        Color::LightYellow
    } else if c == '▓' || c == '█' {
        Color::Red
    } else {
        Color::DarkGray
    }
}

/// Color for one density glyph: a named color, which the terminal theme can
/// remap, never a fixed shade. Where two of them collapse, the shape of the
/// glyph still tells the densities apart.
#[must_use]
pub fn heat_cell_color(c: char) -> (r: Color)
    ensures
        r == density_color(c),
{
    match c {
        '░' => Color::Yellow,
        '▒' => Color::LightYellow,
        '▓' | '█' => Color::Red,
        _ => Color::DarkGray,
    }
}

/// More events are never drawn lighter, and no density is drawn in a fixed
/// shade.
pub proof fn law_density_is_monotonic(a: u32, b: u32)
    requires
        a <= b,
    ensures
        density(a) == density(b) || density_rank(density(a)) < density_rank(density(b)),
        !(density_color(density(a)) is Rgb),
        !(density_color(density(a)) is Indexed),
{
}

/// The order of the density characters, from light to dark.
pub open spec fn density_rank(c: char) -> int {
    if c == '·' {
        0
    } else if c == '░' {
        1
    } else if c == '▒' {
        2
    } else if c == '▓' {
        3
    } else {
        4
    }
}

/// The density characters of some counts.
pub open spec fn strip_text(counts: Seq<u32>) -> Seq<char> {
    Seq::new(counts.len(), |i: int| density(counts[i]))
}

fn strip_of(counts: &Vec<u32>) -> (r: String)
    ensures
        r@ == strip_text(counts@),
{
    let mut r = String::new();
    let mut i: usize = 0;
    assert(strip_text(counts@).take(0) =~= Seq::<char>::empty());
    while i < counts.len()
        invariant
            i <= counts@.len(),
            r@ == strip_text(counts@).take(i as int),
        decreases counts@.len() - i,
    {
        r.push(heat_char(counts[i]));
        assert(strip_text(counts@).take(i + 1) == strip_text(counts@).take(i as int).push(
            strip_text(counts@)[i as int],
        ));
        i += 1;
    }
    assert(strip_text(counts@).take(counts@.len() as int) == strip_text(counts@));
    r
}

/// Renders the surface map as lines of density characters.
#[must_use]
pub fn surface_lines(grid: &[Vec<u32>]) -> (r: Vec<String>)
    ensures
        strings(r@) == Seq::new(grid@.len(), |y: int| strip_text(grid@[y]@)),
{
    let mut r: Vec<String> = Vec::new();
    let mut y: usize = 0;
    while y < grid.len()
        invariant
            y <= grid@.len(),
            r@.len() == y,
            forall|k: int| 0 <= k < y ==> (#[trigger] r@[k])@ == strip_text(grid@[k]@),
        decreases grid@.len() - y,
    {
        r.push(strip_of(&grid[y]));
        y += 1;
    }
    r
}

/// The end of `s` that has exactly `n` bytes in UTF-8, where no character
/// stands across its start.
pub open spec fn tail_of_bytes(s: Seq<char>, n: nat) -> Option<Seq<char>>
    decreases s.len(),
{
    if n == 0 {
        Some(Seq::empty())
    } else if s.len() == 0 || char_bytes(s.last()) > n {
        None
    } else {
        match tail_of_bytes(s.drop_last(), (n - char_bytes(s.last())) as nat) {
            Some(t) => Some(t.push(s.last())),
            None => None,
        }
    }
}

/// A name shortened to a width in bytes, by its end, which usually identifies
/// the device. None where that would cut a character in two.
pub open spec fn short_name(name: Seq<char>, width: nat) -> Option<Seq<char>> {
    if byte_len(name) <= width {
        Some(name)
    } else if width == 0 {
        None
    } else {
        match tail_of_bytes(name, (width - 1) as nat) {
            Some(t) => Some(seq!['…'] + t),
            None => None,
        }
    }
}

/// Shortens a name to a width in bytes.
pub fn shortened(name: &str, width: usize) -> (r: Option<String>)
    ensures
        match r {
            Some(s) => short_name(name@, width as nat) == Some(s@),
            None => short_name(name@, width as nat) is None,
        },
{
    let all: Vec<char> = chars(name);
    if byte_len_of(all.as_slice()) <= width as u128 {
        return Some(name.to_owned());
    }
    if width == 0 {
        return None;
    }
    let mut left: u128 = width as u128 - 1;
    let mut i: usize = all.len();
    let ghost whole = tail_of_bytes(all@, (width - 1) as nat);
    proof {
        assert(all@.take(all@.len() as int) == all@);
        assert(all@.skip(all@.len() as int) =~= Seq::<char>::empty());
        if whole is Some {
            assert(whole->Some_0 + Seq::<char>::empty() == whole->Some_0);
        }
    }
    while left > 0
        invariant
            i <= all@.len(),
            all@ == name@,
            width > 0,
            byte_len(name@) > width,
            whole == tail_of_bytes(all@, (width - 1) as nat),
            match tail_of_bytes(all@.take(i as int), left as nat) {
                Some(t) => whole == Some(t + all@.skip(i as int)),
                None => whole is None,
            },
        decreases left,
    {
        if i == 0 {
            return None;
        }
        let ghost here = all@.take(i as int);
        let w: u128 = char_bytes_of(all[i - 1]);
        proof {
            assert(here.drop_last() == all@.take(i - 1));
            assert(here.last() == all@[i - 1]);
        }
        if w > left {
            return None;
        }
        proof {
            if let Some(t) = tail_of_bytes(all@.take(i - 1), (left - w) as nat) {
                assert(t.push(here.last()) + all@.skip(i as int) == t + all@.skip(i - 1));
            }
        }
        left -= w;
        i -= 1;
    }
    let mut out = String::new();
    out.push('…');
    let n: usize = all.len();
    let tail = slice_subrange(all.as_slice(), i, n);
    push_chars(&mut out, tail);
    proof {
        assert(tail@ == all@.skip(i as int));
        assert(Seq::<char>::empty() + all@.skip(i as int) == all@.skip(i as int));
        assert(out@ == seq!['…'] + all@.skip(i as int));
    }
    Some(out)
}

/// Renders one device row as name, strip and count.
#[must_use]
pub fn device_heat_row(d: &DeviceHeat) -> (r: (String, String, String))
    requires
        short_name(d@.name, 28) is Some,
    ensures
        short_name(d@.name, 28) == Some(r.0@),
        r.1@ == strip_text(d@.buckets),
        r.2@ == decimal(d@.total as nat),
{
    device_heat_row_sized(d, 28)
}

/// Renders one device row with a name of at most `name_w` bytes.
#[must_use]
pub fn device_heat_row_sized(d: &DeviceHeat, name_w: usize) -> (r: (String, String, String))
    requires
        short_name(d@.name, name_w as nat) is Some,
    ensures
        short_name(d@.name, name_w as nat) == Some(r.0@),
        r.1@ == strip_text(d@.buckets),
        r.2@ == decimal(d@.total as nat),
{
    let short = match shortened(d.name.as_str(), name_w) {
        Some(s) => s,
        None => String::new(),
    };
    let mut count = String::new();
    push_decimal(&mut count, d.total as u128);
    assert(count@ == decimal(d@.total as nat));
    (short, strip_of(&d.buckets), count)
}

/// A name of ASCII characters can be shortened to any width but zero.
pub proof fn law_ascii_names_can_be_shortened(name: Seq<char>, width: nat)
    requires
        width > 0,
        forall|i: int| 0 <= i < name.len() ==> (#[trigger] name[i] as u32) < 128,
    ensures
        short_name(name, width) is Some,
        byte_len(name) == name.len(),
{
    lemma_ascii_bytes(name);
    if name.len() > width {
        lemma_ascii_tail(name, (width - 1) as nat);
    }
}

pub proof fn lemma_ascii_bytes(s: Seq<char>)
    requires
        forall|i: int| 0 <= i < s.len() ==> (#[trigger] s[i] as u32) < 128,
    ensures
        byte_len(s) == s.len(),
    decreases s.len(),
{
    if s.len() > 0 {
        assert forall|i: int| 0 <= i < s.drop_last().len() implies (
        #[trigger] s.drop_last()[i] as u32) < 128 by {
            assert(s.drop_last()[i] == s[i]);
        }
        lemma_ascii_bytes(s.drop_last());
        assert((s[s.len() - 1] as u32) < 128);
    }
}

pub proof fn lemma_ascii_tail(s: Seq<char>, n: nat)
    requires
        n <= s.len(),
        forall|i: int| 0 <= i < s.len() ==> (#[trigger] s[i] as u32) < 128,
    ensures
        tail_of_bytes(s, n) == Some(s.skip(s.len() - n)),
    decreases n,
{
    if n > 0 {
        let t = s.drop_last();
        assert forall|i: int| 0 <= i < t.len() implies (#[trigger] t[i] as u32) < 128 by {
            assert(t[i] == s[i]);
        }
        assert((s[s.len() - 1] as u32) < 128);
        lemma_ascii_tail(t, (n - 1) as nat);
        assert(t.skip(t.len() - (n - 1)).push(s.last()) == s.skip(s.len() - n));
    } else {
        assert(s.skip(s.len() as int) =~= Seq::<char>::empty());
    }
}

/// The legend of the density characters.
pub open spec fn legend_text() -> Seq<char> {
    "density: · 0  ░ 1-2  ▒ 3-6  ▓ 7-15  █ 16+ events/2min"@
}

/// Legend for the density characters.
#[must_use]
pub fn heat_legend() -> (r: String)
    ensures
        r@ == legend_text(),
{
    "density: · 0  ░ 1-2  ▒ 3-6  ▓ 7-15  █ 16+ events/2min".to_owned()
}

} // verus!
