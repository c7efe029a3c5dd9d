//! Snapshot sources: demo fixtures, and the merge of what the kernel and
//! `zpool` say of a live pool.

use crate::binary64::{
    clamp_unit, lemma_bits_order, lemma_of_int, of_int, one, quotient, zero, Binary64, ONE,
};
use crate::collect::kstat::{kstat_sample, placeholder, placeholder_root, read_scan, ScanFile};
use crate::collect::status::{
    parse_scan_section, parse_status, probe_rebuild, rebuild_found, scan_section, status_text,
    table_tree, RebuildProbe, ScanLine,
};
use crate::demo::{demo_ereport, demo_sample, ereports, error_ticks, sample, Scenario};
use crate::model::{
    forest, lemma_children, progress_ratio, reports, some_node, Ereport, PoolSnapshot, PoolView,
    ScanFunc, ScanState, ScanStats, Timestamp, VdevInfo, VdevNode, VdevRow,
};
use crate::text::{lines, strings};
use crate::ui::fraction_text;
use vstd::prelude::*;

verus! {

/// Demo source: replays a fixture scenario tick by tick.
pub struct DemoSource {
    pub scenario: Scenario,
    pub tick: u64,
}

/// The tick after a tick.
pub open spec fn next_tick(tick: u64) -> u64 {
    if tick == u64::MAX {
        0
    } else {
        (tick + 1) as u64
    }
}

/// The tick that a scenario shows: it stays at its end.
pub open spec fn shown_tick(tick: u64) -> u64 {
    if tick < 10 {
        tick
    } else {
        10
    }
}

/// The tick before a tick, from zero on.
pub open spec fn last_tick(tick: u64) -> u64 {
    if tick == 0 {
        0
    } else {
        (tick - 1) as u64
    }
}

impl DemoSource {
    pub fn new(scenario: Scenario) -> (s: Self)
        ensures
            s == (DemoSource { scenario, tick: 0 }),
    {
        DemoSource { scenario, tick: 0 }
    }

    /// The next snapshot of the scenario.
    pub fn sample(&mut self) -> (r: PoolSnapshot)
        ensures
            r@ == demo_sample(old(self).scenario, shown_tick(old(self).tick)),
            final(self).scenario == old(self).scenario,
            final(self).tick == next_tick(old(self).tick),
    {
        let t: u64 = if self.tick < 10 {
            self.tick
        } else {
            10
        };
        self.tick = if self.tick == u64::MAX {
            0
        } else {
            self.tick + 1
        };
        sample(self.scenario, t)
    }

    /// The ereports that accompany the last snapshot.
    pub fn ereports(&self) -> (r: Vec<Ereport>)
        requires
            self.scenario is Errors ==> self.tick <= 0x1_0000_0003,
        ensures
            reports(r@) == Seq::new(
                error_ticks(self.scenario, last_tick(self.tick)) as nat,
                |i: int| demo_ereport(last_tick(self.tick), i),
            ),
    {
        let t: u64 = if self.tick == 0 {
            0
        } else {
            self.tick - 1
        };
        ereports(self.scenario, t)
    }

    /// The one pool of the scenario. It is found by taking a snapshot.
    pub fn pools(&mut self) -> (r: Vec<String>)
        ensures
            strings(r@) == seq!["tank"@],
            final(self).scenario == old(self).scenario,
            final(self).tick == next_tick(old(self).tick),
    {
        let s = self.sample();
        let mut r: Vec<String> = Vec::new();
        r.push(s.name);
        assert(strings(r@) =~= seq!["tank"@]);
        r
    }

    /// The next snapshot, whatever the pool is called.
    pub fn sample_pool(&mut self, pool: &str) -> (r: PoolSnapshot)
        ensures
            r@ == demo_sample(old(self).scenario, shown_tick(old(self).tick)),
            final(self).scenario == old(self).scenario,
            final(self).tick == next_tick(old(self).tick),
    {
        self.sample()
    }
}

/// Live source: one pool that the user named, or every visible one.
pub struct LiveSource {
    pub pool: Option<String>,
}

/// The pools that a live source shows, of those that are visible.
pub open spec fn shown_pools(pool: Option<String>, visible: Seq<String>) -> Seq<Seq<char>> {
    match pool {
        Some(p) => seq![p@],
        None => strings(visible),
    }
}

impl LiveSource {
    pub fn new(pool: Option<String>) -> (s: Self)
        ensures
            s.pool == pool,
    {
        LiveSource { pool }
    }

    /// The pools in display order: the one that was named, or every visible
    /// one.
    pub fn pools(&self, visible: Vec<String>) -> (r: Vec<String>)
        ensures
            strings(r@) == shown_pools(self.pool, visible@),
    {
        match &self.pool {
            Some(p) => {
                let mut r: Vec<String> = Vec::new();
                r.push(p.clone());
                assert(strings(r@) =~= seq![p@]);
                r
            },
            None => visible,
        }
    }

    /// The pool that a single snapshot is taken of: the first one in display
    /// order.
    pub fn first_pool(&self, visible: Vec<String>) -> (r: Result<String, String>)
        ensures
            match r {
                Ok(p) => shown_pools(self.pool, visible@).len() > 0 && p@ == shown_pools(
                    self.pool,
                    visible@,
                )[0],
                Err(e) => shown_pools(self.pool, visible@).len() == 0 && e@
                    == "no ZFS pools visible — is a pool imported?"@,
            },
    {
        let shown = self.pools(visible);
        assert(strings(shown@).len() == shown@.len());
        if shown.len() > 0 {
            assert(strings(shown@)[0] == shown@[0]@);
            Ok(shown[0].clone())
        } else {
            Err("no ZFS pools visible — is a pool imported?".to_owned())
        }
    }
}

/// The predicate of nodes that are being resilvered into.
pub open spec fn target_node() -> spec_fn(VdevNode) -> bool {
    |n: VdevNode| n.row.is_rebuild_target
}

/// A tree with a percentage on its first node, from the root down, that is
/// being resilvered into.
pub open spec fn stamped(n: VdevNode, pct: Binary64) -> VdevNode
    decreases n,
{
    if n.row.is_rebuild_target {
        VdevNode { row: VdevRow { rebuild_pct: Some(pct), ..n.row }, children: n.children }
    } else {
        VdevNode { row: n.row, children: stamped_first(n.children, pct) }
    }
}

/// Some trees with a percentage on the first such node among them.
pub open spec fn stamped_first(f: Seq<VdevNode>, pct: Binary64) -> Seq<VdevNode>
    decreases f,
{
    if f.len() == 0 {
        f
    } else {
        let rest = f.subrange(1, f.len() as int);
        if some_node(f[0], target_node()) {
            seq![stamped(f[0], pct)] + rest
        } else {
            seq![f[0]] + stamped_first(rest, pct)
        }
    }
}

/// Puts a percentage on the first node that is being resilvered into; says
/// whether there is one.
fn stamp(v: VdevInfo, pct: Binary64) -> (r: (VdevInfo, bool))
    ensures
        r.0@ == stamped(v@, pct),
        r.1 == some_node(v@, target_node()),
    decreases v,
{
    let ghost n = v@;
    let ghost p = target_node();
    proof {
        lemma_children(v);
    }
    let VdevInfo {
        name,
        state,
        is_rebuild_target,
        read_err,
        write_err,
        checksum_err,
        rebuild_pct,
        children,
    } = v;
    if is_rebuild_target {
        assert(p(n));
        let r = VdevInfo {
            name,
            state,
            is_rebuild_target,
            read_err,
            write_err,
            checksum_err,
            rebuild_pct: Some(pct),
            children,
        };
        proof {
            lemma_children(r);
        }
        return (r, true);
    }
    assert(!p(n));
    let ghost kids = children@;
    let mut rest = children;
    let mut done: Vec<VdevInfo> = Vec::new();
    let mut found: bool = false;
    proof {
        assert(forest(done@) =~= Seq::<VdevNode>::empty());
        assert(forest(done@) + stamped_first(n.children, pct) == stamped_first(n.children, pct));
    }
    while rest.len() > 0
        invariant
            n == v@,
            p == target_node(),
            kids == v.children@,
            n.children == forest(kids),
            done@.len() + rest@.len() == kids.len(),
            rest@ == kids.skip(done@.len() as int),
            found ==> forest(done@) + forest(rest@) == stamped_first(n.children, pct),
            !found ==> forest(done@) + stamped_first(forest(rest@), pct) == stamped_first(
                n.children,
                pct,
            ),
            found <==> exists|k: int|
                0 <= k < done@.len() && some_node(#[trigger] n.children[k], p),
        decreases rest@.len(),
    {
        let ghost i = done@.len() as int;
        let ghost before = done@;
        let ghost tail = rest@;
        let c = rest.remove(0);
        proof {
            assert(c == kids[i]);
            assert(rest@ == kids.skip(i + 1));
            assert(forest(tail)[0] == c@);
            assert(n.children[i] == c@);
            assert(forest(tail).subrange(1, tail.len() as int) == forest(rest@));
        }
        if found {
            done.push(c);
            proof {
                assert(forest(done@) + forest(rest@) == forest(before) + forest(tail));
            }
        } else {
            let (d, hit) = stamp(c, pct);
            done.push(d);
            found = hit;
            proof {
                assert(forest(done@) == forest(before).push(d@));
                if hit {
                    assert(forest(done@) + forest(rest@) == forest(before) + (seq![d@] + forest(
                        rest@,
                    )));
                } else {
                    lemma_stamp_nothing(c@, pct);
                    assert(forest(done@) + stamped_first(forest(rest@), pct) == forest(before) + (
                    seq![c@] + stamped_first(forest(rest@), pct)));
                }
            }
        }
    }
    let r = VdevInfo {
        name,
        state,
        is_rebuild_target,
        read_err,
        write_err,
        checksum_err,
        rebuild_pct,
        children: done,
    };
    proof {
        lemma_children(r);
        assert(forest(rest@) =~= Seq::<VdevNode>::empty());
        assert(stamped_first(forest(rest@), pct) =~= Seq::<VdevNode>::empty());
        assert(forest(done@) + Seq::<VdevNode>::empty() == forest(done@));
    }
    (r, found)
}

/// A tree in which nothing is resilvered into stays as it is.
pub proof fn lemma_stamp_nothing(n: VdevNode, pct: Binary64)
    requires
        !some_node(n, target_node()),
    ensures
        stamped(n, pct) == n,
    decreases n,
{
    assert(!target_node()(n));
    lemma_stamp_nothing_first(n.children, pct);
}

proof fn lemma_stamp_nothing_first(f: Seq<VdevNode>, pct: Binary64)
    requires
        forall|i: int| 0 <= i < f.len() ==> !some_node(#[trigger] f[i], target_node()),
    ensures
        stamped_first(f, pct) == f,
    decreases f,
{
    if f.len() > 0 {
        let rest = f.subrange(1, f.len() as int);
        assert forall|i: int| 0 <= i < rest.len() implies !some_node(
            #[trigger] rest[i],
            target_node(),
        ) by {
            assert(rest[i] == f[i + 1]);
        }
        lemma_stamp_nothing_first(rest, pct);
        assert(seq![f[0]] + rest == f);
    }
}

/// A scan of which only the kind and the state are known.
pub open spec fn bare_scan(func: ScanFunc, state: ScanState, now: Timestamp) -> ScanStats {
    ScanStats {
        func,
        state,
        start_time: None,
        end_time: None,
        to_examine: 0,
        examined: 0,
        processed: 0,
        skipped: 0,
        errors: 0,
        issued: 0,
        pass_exam: 0,
        sampled_at: now,
        progress_override: None,
    }
}

/// A count that may be missing, as zero.
pub open spec fn or_zero(n: Option<u64>) -> u64 {
    match n {
        Some(x) => x,
        None => 0,
    }
}

/// The scan that a `scan:` line tells of. A percentage becomes the progress
/// ratio; without one, the size that is mentioned counts as examined.
pub open spec fn scan_of_line(sl: ScanLine, now: Timestamp) -> ScanStats {
    let scan = ScanStats { errors: or_zero(sl.errors), ..bare_scan(sl.func, sl.state, now) };
    match (sl.pct, sl.bytes) {
        (Some(pct), _) => ScanStats {
            progress_override: Some(clamp_unit(quotient(pct, of_int(100)))),
            ..scan
        },
        (None, Some(bytes)) => ScanStats { to_examine: bytes, examined: bytes, ..scan },
        (None, None) => scan,
    }
}

/// The scan that the wording of a rebuild tells of. A complete one has made
/// all its progress.
pub open spec fn scan_of_rebuild(rp: RebuildProbe, now: Timestamp) -> ScanStats {
    ScanStats {
        to_examine: or_zero(rp.bytes),
        examined: or_zero(rp.bytes),
        errors: or_zero(rp.errors),
        progress_override: if rp.state is Finished {
            Some(one())
        } else {
            None
        },
        ..bare_scan(ScanFunc::Resilver, rp.state, now)
    }
}

/// The scan that a status text tells of: its `scan:` line, then the wording of
/// a rebuild.
pub open spec fn status_scan(out: Seq<char>, now: Timestamp) -> Option<ScanStats> {
    match scan_section(out) {
        Some(sl) => Some(scan_of_line(sl, now)),
        None => match rebuild_found(lines(out)) {
            Some(rp) => Some(scan_of_rebuild(rp, now)),
            None => None,
        },
    }
}

/// What a status text adds to a snapshot. Its tree replaces the topology, its
/// percentage goes to the device that a known scan resilvers into, and its
/// scan stands in where none is known.
pub open spec fn with_status(s: PoolView, out: Seq<char>, now: Timestamp) -> PoolView {
    let st = status_text(lines(out));
    let root = match table_tree(st.rows) {
        Some(tree) => tree,
        None => s.root,
    };
    PoolView {
        root: match (s.scan, st.progress) {
            (Some(_), Some(pct)) => stamped(root, pct),
            _ => root,
        },
        scan: match s.scan {
            Some(scan) => Some(scan),
            None => status_scan(out, now),
        },
        ..s
    }
}

/// A pool of which nothing is known but its name.
pub open spec fn unscanned(pool: Seq<char>, now: Timestamp) -> PoolView {
    PoolView { name: pool, scan: None, root: placeholder(pool), sampled_at: now }
}

/// The snapshot before the status is merged in.
pub open spec fn kstat_or_unscanned(pool: Seq<char>, file: ScanFile, now: Timestamp) -> PoolView {
    match file {
        ScanFile::Text(raw) => match kstat_sample(pool, raw@, now) {
            Some(s) => s,
            None => unscanned(pool, now),
        },
        _ => unscanned(pool, now),
    }
}

/// The snapshot of a live pool, from its scan kstat file and, where the command
/// succeeded, the output of `zpool status -v`.
pub open spec fn live_sample(
    pool: Seq<char>,
    file: ScanFile,
    status: Result<String, String>,
    now: Timestamp,
) -> PoolView {
    let s = kstat_or_unscanned(pool, file, now);
    match status {
        Ok(out) => with_status(s, out@, now),
        Err(_) => s,
    }
}

fn bare_scan_of(func: ScanFunc, state: ScanState, now: Timestamp) -> (r: ScanStats)
    ensures
        r == bare_scan(func, state, now),
{
    ScanStats {
        func,
        state,
        start_time: None,
        end_time: None,
        to_examine: 0,
        examined: 0,
        processed: 0,
        skipped: 0,
        errors: 0,
        issued: 0,
        pass_exam: 0,
        sampled_at: now,
        progress_override: None,
    }
}

fn or_zero_of(n: Option<u64>) -> (r: u64)
    ensures
        r == or_zero(n),
{
    match n {
        Some(x) => x,
        None => 0,
    }
}

fn status_scan_of(out: &str, now: Timestamp) -> (r: Option<ScanStats>)
    ensures
        r == status_scan(out@, now),
{
    if let Some(sl) = parse_scan_section(out) {
        let mut scan = bare_scan_of(sl.func, sl.state, now);
        scan.errors = or_zero_of(sl.errors);
        if let Some(pct) = sl.pct {
            proof {
                lemma_of_int(100);
            }
            scan.progress_override = Some(pct.over(Binary64::from_u64(100)).clamped());
        } else if let Some(bytes) = sl.bytes {
            scan.to_examine = bytes;
            scan.examined = bytes;
        }
        return Some(scan);
    }
    if let Some(rp) = probe_rebuild(out) {
        let mut scan = bare_scan_of(ScanFunc::Resilver, rp.state, now);
        scan.to_examine = or_zero_of(rp.bytes);
        scan.examined = or_zero_of(rp.bytes);
        scan.errors = or_zero_of(rp.errors);
        if rp.state == ScanState::Finished {
            scan.progress_override = Some(Binary64 { bits: ONE });
        }
        return Some(scan);
    }
    None
}

/// Merges a status text into a snapshot.
fn merge_status(snap: PoolSnapshot, out: &str, now: Timestamp) -> (r: PoolSnapshot)
    ensures
        r@ == with_status(snap@, out@, now),
{
    let (_, tree, pct, _) = parse_status(out);
    let mut root = match tree {
        Some(tree) => tree,
        None => snap.root,
    };
    if snap.scan.is_some() {
        if let Some(pct) = pct {
            let (marked, _) = stamp(root, pct);
            root = marked;
        }
    }
    let scan = match snap.scan {
        Some(scan) => Some(scan),
        None => status_scan_of(out, now),
    };
    PoolSnapshot { name: snap.name, scan, root, sampled_at: snap.sampled_at }
}

impl LiveSource {
    /// The snapshot of one pool, from its scan kstat file and from what came of
    /// `zpool status -v`.
    ///
    /// It fails exactly where the kstat file exists and cannot be read. A
    /// status that could not be had is left out: the snapshot keeps what the
    /// kstat says.
    pub fn collect_one(
        pool: &str,
        file: ScanFile,
        status: Result<String, String>,
        now: Timestamp,
    ) -> (r: Result<PoolSnapshot, String>)
        ensures
            match file {
                ScanFile::Unreadable(e) => r == Err::<PoolSnapshot, String>(e),
                _ => r matches Ok(s) && s@ == live_sample(pool@, file, status, now),
            },
    {
        let read = read_scan(pool, file, now);
        let snap = match read {
            Err(e) => {
                return Err(e);
            },
            Ok(Some(s)) => s,
            Ok(None) => PoolSnapshot {
                name: pool.to_owned(),
                scan: None,
                root: placeholder_root(pool.to_owned()),
                sampled_at: now,
            },
        };
        match status {
            Ok(out) => Ok(merge_status(snap, out.as_str(), now)),
            Err(_) => Ok(snap),
        }
    }
}

/// The kstat is the source of truth: where it records a scan, no status text
/// changes it.
pub proof fn law_kstat_wins(s: PoolView, out: Seq<char>, now: Timestamp)
    ensures
        s.scan is Some ==> with_status(s, out, now).scan == s.scan,
        s.scan is None ==> with_status(s, out, now).scan == status_scan(out, now),
        with_status(s, out, now).name == s.name,
        with_status(s, out, now).sampled_at == s.sampled_at,
{
}

/// The fallback chain is evaluated in order: the `scan:` line comes before the
/// wording of a rebuild, and without either no scan is made up.
pub proof fn law_fallbacks_come_in_order(out: Seq<char>, now: Timestamp)
    ensures
        scan_section(out) matches Some(sl) ==> status_scan(out, now) == Some(
            scan_of_line(sl, now),
        ),
        scan_section(out) is None && rebuild_found(lines(out)) is None ==> status_scan(out, now)
            is None,
{
}

/// Observation fails softly: without a status the snapshot keeps what the
/// kstat says, and a pool that was never scanned is an idle pool, not an error.
pub proof fn law_absence_is_not_failure(
    pool: Seq<char>,
    status: Result<String, String>,
    now: Timestamp,
)
    ensures
        status is Err ==> live_sample(pool, ScanFile::Missing, status, now) == unscanned(pool, now),
        live_sample(pool, ScanFile::Missing, status, now).name == pool,
        live_sample(pool, ScanFile::Missing, status, now).sampled_at == now,
{
}

/// No number is made up from a wording. A percentage gives a progress ratio and
/// no byte counts, a size gives byte counts that are all examined, and a wording
/// with neither leaves the progress unknown.
pub proof fn law_wording_makes_up_no_numbers(sl: ScanLine, now: Timestamp)
    ensures
        ({
            let scan = scan_of_line(sl, now);
            &&& sl.pct is Some ==> fraction_text(scan.examined, scan.to_examine).len() == 0
            &&& sl.pct is None && sl.bytes is Some ==> scan.progress_override is None
                && scan.examined == sl.bytes->Some_0 && scan.to_examine == scan.examined
            &&& sl.pct is None && sl.bytes is None ==> progress_ratio(scan) is None
                && fraction_text(scan.examined, scan.to_examine).len() == 0
        }),
{
}

/// A rebuild that is complete has made all its progress, whether or not its size
/// is known.
pub proof fn law_complete_rebuild_is_at_its_end(rp: RebuildProbe, now: Timestamp)
    ensures
        rp.state is Finished ==> progress_ratio(scan_of_rebuild(rp, now)) == Some(one()),
        scan_of_rebuild(rp, now).func is Resilver,
{
    lemma_bits_order(one(), one());
    lemma_bits_order(one(), zero());
}

} // verus!
