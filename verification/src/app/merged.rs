//! What a live snapshot is made of, stated over its parts.

use crate::app::source::{
    lemma_stamp_nothing, live_sample, scan_of_line, scan_of_rebuild, shown_pools, shown_tick,
    stamped, stamped_first, status_scan, target_node, unscanned, with_status, next_tick,
};
use crate::app::startup::{preflight_of, STATUS_TIMEOUT_MS};
use crate::binary64::{lemma_bits_order, nearest, of_int, one, p2, zero, Binary64};
use crate::collect::kstat::{fields_of, recorded_scan, ScanFile};
use crate::collect::status::{
    rebuild_found, scan_section, status_text, table_tree, RebuildProbe, ScanLine,
};
use crate::figures::law_quotients_are_nearest;
use crate::model::{some_node, PoolView, Timestamp, VdevNode, VdevRow};
use crate::rounding::{law_rounding_keeps_order, no_more};
use crate::shown::lemma_one;
use crate::text::lines;
use crate::tree::{law_walk_meets_every_node, walk, walk_all, Met};
use vstd::prelude::*;

verus! {

/// Whether the node at `i` of a walk is the first that is being resilvered into.
pub open spec fn is_first_target(w: Seq<Met>, i: int) -> bool {
    &&& 0 <= i < w.len()
    &&& w[i].node.row.is_rebuild_target
    &&& forall|j: int| 0 <= j < i ==> !(#[trigger] w[j]).node.row.is_rebuild_target
}

/// Whether two walks meet the same nodes, except that the first one that is being
/// resilvered into has the percentage `pct`.
pub open spec fn same_but_first_target(w: Seq<Met>, v: Seq<Met>, pct: Binary64) -> bool {
    &&& v.len() == w.len()
    &&& forall|i: int|
        0 <= i < w.len() ==> {
            &&& (#[trigger] v[i]).depth == w[i].depth
            &&& v[i].node.children.len() == w[i].node.children.len()
            &&& v[i].node.row == (if is_first_target(w, i) {
                VdevRow { rebuild_pct: Some(pct), ..w[i].node.row }
            } else {
                w[i].node.row
            })
        }
}

proof fn lemma_no_target(w: Seq<Met>, pct: Binary64)
    requires
        forall|i: int| 0 <= i < w.len() ==> !(#[trigger] w[i]).node.row.is_rebuild_target,
    ensures
        same_but_first_target(w, w, pct),
{
    assert forall|i: int| 0 <= i < w.len() implies !is_first_target(w, i) by {
        assert(!w[i].node.row.is_rebuild_target);
    }
}

proof fn lemma_targets(n: VdevNode, depth: nat)
    ensures
        some_node(n, target_node()) <==> exists|i: int|
            0 <= i < walk(n, depth).len() && (#[trigger] walk(
                n,
                depth,
            )[i]).node.row.is_rebuild_target,
{
    law_walk_meets_every_node(n, depth, target_node());
    let w = walk(n, depth);
    let p = target_node();
    assert forall|i: int| 0 <= i < w.len() implies p((#[trigger] w[i]).node)
        == w[i].node.row.is_rebuild_target by {}
    if some_node(n, p) {
        let i = choose|i: int| 0 <= i < w.len() && p((#[trigger] w[i]).node);
        assert(w[i].node.row.is_rebuild_target);
    }
    if exists|i: int| 0 <= i < w.len() && (#[trigger] w[i]).node.row.is_rebuild_target {
        let i = choose|i: int| 0 <= i < w.len() && (#[trigger] w[i]).node.row.is_rebuild_target;
        assert(p(w[i].node));
    }
}

proof fn lemma_stamped_walk(n: VdevNode, pct: Binary64, depth: nat)
    ensures
        same_but_first_target(walk(n, depth), walk(stamped(n, pct), depth), pct),
    decreases n,
{
    let w = walk(n, depth);
    let v = walk(stamped(n, pct), depth);
    let below = walk_all(n.children, depth + 1);
    assert(w[0].node == n);
    if n.row.is_rebuild_target {
        assert forall|i: int| 0 <= i < w.len() implies {
            &&& (#[trigger] v[i]).depth == w[i].depth
            &&& v[i].node.children.len() == w[i].node.children.len()
            &&& v[i].node.row == (if is_first_target(w, i) {
                VdevRow { rebuild_pct: Some(pct), ..w[i].node.row }
            } else {
                w[i].node.row
            })
        } by {
            if i == 0 {
                assert(is_first_target(w, 0));
            } else {
                assert(v[i] == below[i - 1] && w[i] == below[i - 1]);
                assert(w[0].node.row.is_rebuild_target);
                assert(!is_first_target(w, i));
            }
        }
    } else {
        lemma_stamped_walk_all(n.children, pct, depth + 1);
        let marked = walk_all(stamped_first(n.children, pct), depth + 1);
        lemma_stamped_len(n.children, pct);
        assert forall|i: int| 0 <= i < w.len() implies {
            &&& (#[trigger] v[i]).depth == w[i].depth
            &&& v[i].node.children.len() == w[i].node.children.len()
            &&& v[i].node.row == (if is_first_target(w, i) {
                VdevRow { rebuild_pct: Some(pct), ..w[i].node.row }
            } else {
                w[i].node.row
            })
        } by {
            if i > 0 {
                assert(v[i] == marked[i - 1] && w[i] == below[i - 1]);
                lemma_first_target_shift(seq![w[0]], below, i - 1);
                assert(w =~= seq![w[0]] + below);
            } else {
                assert(!is_first_target(w, 0));
            }
        }
    }
}

proof fn lemma_stamped_len(f: Seq<VdevNode>, pct: Binary64)
    ensures
        stamped_first(f, pct).len() == f.len(),
    decreases f,
{
    if f.len() > 0 {
        lemma_stamped_len(f.subrange(1, f.len() as int), pct);
    }
}

proof fn lemma_first_target_shift(a: Seq<Met>, b: Seq<Met>, i: int)
    requires
        forall|j: int| 0 <= j < a.len() ==> !(#[trigger] a[j]).node.row.is_rebuild_target,
        0 <= i < b.len(),
    ensures
        is_first_target(a + b, a.len() + i) <==> is_first_target(b, i),
{
    let w = a + b;
    assert(w[a.len() + i] == b[i]);
    if is_first_target(b, i) {
        assert forall|j: int| 0 <= j < a.len() + i implies !(
        #[trigger] w[j]).node.row.is_rebuild_target by {
            if j < a.len() {
                assert(w[j] == a[j]);
            } else {
                assert(w[j] == b[j - a.len()]);
            }
        }
    }
    if is_first_target(w, a.len() + i) {
        assert forall|j: int| 0 <= j < i implies !(#[trigger] b[j]).node.row.is_rebuild_target by {
            assert(w[a.len() + j] == b[j]);
        }
    }
}

proof fn lemma_stamped_walk_all(f: Seq<VdevNode>, pct: Binary64, depth: nat)
    ensures
        same_but_first_target(walk_all(f, depth), walk_all(stamped_first(f, pct), depth), pct),
    decreases f,
{
    if f.len() == 0 {
        lemma_no_target(walk_all(f, depth), pct);
    } else {
        let rest = f.subrange(1, f.len() as int);
        let a = walk(f[0], depth);
        let b = walk_all(rest, depth);
        let w = walk_all(f, depth);
        let g = stamped_first(f, pct);
        lemma_targets(f[0], depth);
        if some_node(f[0], target_node()) {
            lemma_stamped_walk(f[0], pct, depth);
            let c = walk(stamped(f[0], pct), depth);
            assert(g[0] == stamped(f[0], pct));
            assert(g.subrange(1, g.len() as int) == rest);
            let v = walk_all(g, depth);
            assert(v == c + b);
            let k = choose|k: int| 0 <= k < a.len() && (#[trigger] a[k]).node.row.is_rebuild_target;
            assert forall|i: int| 0 <= i < w.len() implies {
                &&& (#[trigger] v[i]).depth == w[i].depth
                &&& v[i].node.children.len() == w[i].node.children.len()
                &&& v[i].node.row == (if is_first_target(w, i) {
                    VdevRow { rebuild_pct: Some(pct), ..w[i].node.row }
                } else {
                    w[i].node.row
                })
            } by {
                if i < a.len() {
                    assert(v[i] == c[i] && w[i] == a[i]);
                    assert(is_first_target(w, i) <==> is_first_target(a, i)) by {
                        if is_first_target(a, i) {
                            assert forall|j: int| 0 <= j < i implies !(
                            #[trigger] w[j]).node.row.is_rebuild_target by {
                                assert(w[j] == a[j]);
                            }
                        }
                        if is_first_target(w, i) {
                            assert forall|j: int| 0 <= j < i implies !(
                            #[trigger] a[j]).node.row.is_rebuild_target by {
                                assert(w[j] == a[j]);
                            }
                        }
                    }
                } else {
                    assert(v[i] == b[i - a.len()] && w[i] == b[i - a.len()]);
                    assert(w[k] == a[k]);
                    assert(!is_first_target(w, i));
                }
            }
        } else {
            lemma_stamped_walk_all(rest, pct, depth);
            let h = stamped_first(rest, pct);
            assert(g[0] == f[0]);
            assert(g.subrange(1, g.len() as int) == h);
            let d = walk_all(h, depth);
            let v = walk_all(g, depth);
            assert(v == a + d);
            assert forall|j: int| 0 <= j < a.len() implies !(
            #[trigger] a[j]).node.row.is_rebuild_target by {}
            assert forall|i: int| 0 <= i < w.len() implies {
                &&& (#[trigger] v[i]).depth == w[i].depth
                &&& v[i].node.children.len() == w[i].node.children.len()
                &&& v[i].node.row == (if is_first_target(w, i) {
                    VdevRow { rebuild_pct: Some(pct), ..w[i].node.row }
                } else {
                    w[i].node.row
                })
            } by {
                if i < a.len() {
                    assert(v[i] == a[i] && w[i] == a[i]);
                    assert(!is_first_target(w, i));
                } else {
                    assert(v[i] == d[i - a.len()] && w[i] == b[i - a.len()]);
                    lemma_first_target_shift(a, b, i - a.len());
                }
            }
        }
    }
}

/// The percentage of a status goes to the first node, from the root down, that is
/// being resilvered into, and nothing else of the tree changes: no name, no state,
/// no counter and no shape. A tree without such a node stays as it is.
pub proof fn law_percentage_goes_to_the_first_target(n: VdevNode, pct: Binary64)
    ensures
        same_but_first_target(walk(n, 0), walk(stamped(n, pct), 0), pct),
        (forall|i: int|
            0 <= i < walk(n, 0).len() ==> !(#[trigger] walk(n, 0)[i]).node.row.is_rebuild_target)
            ==> stamped(n, pct) == n,
{
    lemma_stamped_walk(n, pct, 0);
    lemma_targets(n, 0);
    if !some_node(n, target_node()) {
        lemma_stamp_nothing(n, pct);
    }
}

/// The topology of a snapshot is the tree that the status prints; where it prints
/// none, it is what was known before. A percentage is put on it only where the
/// kernel records a scan.
pub proof fn law_status_gives_the_topology(s: PoolView, out: Seq<char>, now: Timestamp)
    ensures
        ({
            let st = status_text(lines(out));
            let t = with_status(s, out, now);
            let root = match table_tree(st.rows) {
                Some(tree) => tree,
                None => s.root,
            };
            &&& s.scan is None || st.progress is None ==> t.root == root
            &&& s.scan is Some ==> (st.progress matches Some(pct) ==> same_but_first_target(
                walk(root, 0),
                walk(t.root, 0),
                pct,
            ))
            &&& st.rows.len() == 0 && st.progress is None ==> t.root == s.root
        }),
{
    let st = status_text(lines(out));
    let root = match table_tree(st.rows) {
        Some(tree) => tree,
        None => s.root,
    };
    if let Some(pct) = st.progress {
        law_percentage_goes_to_the_first_target(root, pct);
    }
}

/// A pool without a scan record and without a status is idle: nothing is known of it
/// but its name, which its one online vdev bears.
pub proof fn law_unscanned_pool_is_idle(pool: Seq<char>, now: Timestamp)
    ensures
        ({
            let s = unscanned(pool, now);
            &&& s.name == pool
            &&& s.scan is None
            &&& s.sampled_at == now
            &&& s.root.row.name == pool
            &&& s.root.row.state is Online
            &&& s.root.row.read_err == 0 && s.root.row.write_err == 0 && s.root.row.checksum_err
                == 0
            &&& !s.root.row.is_rebuild_target
            &&& s.root.row.rebuild_pct is None
            &&& s.root.children.len() == 0
        }),
{
}

/// The scan of a live snapshot is the one that the kernel records, where it records
/// one, whatever the status says; otherwise the one that the status words; otherwise
/// there is none.
pub proof fn law_live_scan_comes_from_the_kernel(
    pool: Seq<char>,
    raw: String,
    status: Result<String, String>,
    now: Timestamp,
)
    ensures
        ({
            let s = live_sample(pool, ScanFile::Text(raw), status, now);
            let recorded = match fields_of(lines(raw@)) {
                Some(ls) => recorded_scan(ls, now),
                None => None,
            };
            &&& s.name == pool
            &&& s.sampled_at == now
            &&& recorded is Some ==> s.scan == recorded
            &&& recorded is None ==> s.scan == (match status {
                Ok(out) => status_scan(out@, now),
                Err(_) => None,
            })
        }),
{
}

/// What a `scan:` line gives: its kind, its state and its errors as they are, and no
/// times. A percentage is a ratio of one hundred and no bytes.
pub proof fn law_scan_line_gives_a_scan(sl: ScanLine, now: Timestamp)
    ensures
        ({
            let s = scan_of_line(sl, now);
            &&& s.func == sl.func
            &&& s.state == sl.state
            &&& sl.errors matches Some(n) ==> s.errors == n
            &&& sl.errors is None ==> s.errors == 0
            &&& s.start_time is None
            &&& s.end_time is None
            &&& s.sampled_at == now
            &&& s.processed == 0 && s.skipped == 0 && s.issued == 0 && s.pass_exam == 0
            &&& sl.pct is Some ==> s.examined == 0 && s.to_examine == 0
                && s.progress_override is Some
            &&& sl.pct is None ==> s.progress_override is None
            &&& sl.pct is None && sl.bytes is None ==> s.examined == 0 && s.to_examine == 0
        }),
{
}

/// So many percent are so many hundredths.
pub proof fn law_percent_are_hundredths(sl: ScanLine, p: nat, now: Timestamp)
    requires
        p <= 100,
        sl.pct == Some(of_int(p)),
    ensures
        scan_of_line(sl, now).progress_override == Some(nearest(p, 100, 0)),
{
    law_quotients_are_nearest(p, 100);
    let q = nearest(p, 100, 0);
    assert(no_more(p, 100, 0, 1, 1, 0)) by {
        assert(p * 1 * p2(0) <= 1 * 100 * p2(0)) by (nonlinear_arith)
            requires
                p <= 100,
        ;
    }
    law_rounding_keeps_order(p, 100, 0, 1, 1, 0);
    lemma_one();
    lemma_bits_order(one(), q);
    lemma_bits_order(q, zero());
}

/// What the wording of a rebuild gives: a resilver in its state, with its size all
/// examined and its errors, and its progress only where it is complete.
pub proof fn law_rebuild_gives_a_scan(rp: RebuildProbe, now: Timestamp)
    ensures
        ({
            let s = scan_of_rebuild(rp, now);
            &&& s.func is Resilver
            &&& s.state == rp.state
            &&& rp.bytes matches Some(n) ==> s.examined == n && s.to_examine == n
            &&& rp.bytes is None ==> s.examined == 0 && s.to_examine == 0
            &&& rp.errors matches Some(n) ==> s.errors == n
            &&& rp.errors is None ==> s.errors == 0
            &&& s.progress_override is Some <==> rp.state is Finished
            &&& s.progress_override matches Some(x) ==> x == one()
            &&& s.start_time is None
            &&& s.end_time is None
            &&& s.sampled_at == now
        }),
{
}

/// Without a `scan:` section the wording of a rebuild counts.
pub proof fn law_rebuild_stands_in(out: Seq<char>, now: Timestamp)
    ensures
        status_scan(out, now) is Some <==> scan_section(out) is Some || rebuild_found(
            lines(out),
        ) is Some,
        scan_section(out) is None ==> (rebuild_found(lines(out)) matches Some(rp) ==> status_scan(
            out,
            now,
        ) == Some(scan_of_rebuild(rp, now))),
{
}

/// What is found before the start, by cases.
pub proof fn law_preflight_by_cases(has_zfs: bool, scanned: Seq<bool>, pinned: bool)
    ensures
        ({
            let p = preflight_of(has_zfs, scanned, pinned);
            let any = exists|i: int| 0 <= i < scanned.len() && #[trigger] scanned[i];
            &&& p is NoZfs <==> !has_zfs
            &&& p is NoPools <==> has_zfs && scanned.len() == 0
            &&& p is NoScansYet <==> has_zfs && scanned.len() > 0 && !pinned && !any
            &&& p is Ready <==> has_zfs && scanned.len() > 0 && (pinned || any)
        }),
{
    if exists|i: int| 0 <= i < scanned.len() && #[trigger] scanned[i] {
        let i = choose|i: int| 0 <= i < scanned.len() && #[trigger] scanned[i];
        assert(scanned[i] == true);
        assert(scanned.contains(true));
    }
}

/// A replay goes on tick by tick and stays at its end.
pub proof fn law_replay_stays_at_its_end(tick: u64)
    ensures
        tick <= 10 ==> shown_tick(tick) == tick,
        tick > 10 ==> shown_tick(tick) == 10,
        tick < u64::MAX ==> next_tick(tick) == tick + 1,
{
}

/// A live source shows the pool that was named, and nothing else; without one it
/// shows every visible pool, in order.
pub proof fn law_named_pool_is_shown_alone(p: String, visible: Seq<String>)
    ensures
        shown_pools(Some(p), visible) == seq![p@],
        shown_pools(None, visible).len() == visible.len(),
        forall|i: int|
            0 <= i < visible.len() ==> #[trigger] shown_pools(None, visible)[i] == visible[i]@,
{
}

/// `zpool status` may take five seconds.
pub proof fn law_status_may_take_five_seconds()
    ensures
        STATUS_TIMEOUT_MS == 5 * 1_000,
{
}

} // verus!
