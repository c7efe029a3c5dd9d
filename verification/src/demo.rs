//! Embedded fixture scenarios for environments without ZFS.
//!
//! Four scripted time series cover the observation states: a resilver in
//! progress, one finished cleanly, an error-heavy run, and a faulted vdev.

use crate::binary64::{of_int, Binary64};
use crate::model::{
    faulted_node, forest, lemma_children, recoverable_node, reports, some_node, wants_retry,
    Ereport, EreportView, ErrKind, PoolSnapshot, PoolView, ScanFunc, ScanState, ScanStats,
    Timestamp, VdevInfo, VdevNode, VdevRow, VdevState,
};
use crate::text::{chars, is_text};
use vstd::prelude::*;

verus! {

#[derive(Debug, Clone, Copy, PartialEq, Eq, Structural)]
pub enum Scenario {
    Scanning,
    Done,
    Errors,
    Faulted,
}

/// The scenario that a name stands for.
pub open spec fn scenario_named(s: Seq<char>) -> Option<Scenario> {
    if s == "scanning"@ {
        Some(Scenario::Scanning)
    } else if s == "done"@ {
        Some(Scenario::Done)
    } else if s == "errors"@ {
        Some(Scenario::Errors)
    } else if s == "fault"@ {
        Some(Scenario::Faulted)
    } else {
        None
    }
}

impl Scenario {
    /// Parses the name that the command line uses.
    pub fn parse(s: &str) -> (r: Option<Self>)
        ensures
            r == scenario_named(s@),
    {
        let t: Vec<char> = chars(s);
        let t = t.as_slice();
        if is_text(t, "scanning") {
            Some(Scenario::Scanning)
        } else if is_text(t, "done") {
            Some(Scenario::Done)
        } else if is_text(t, "errors") {
            Some(Scenario::Errors)
        } else if is_text(t, "fault") {
            Some(Scenario::Faulted)
        } else {
            None
        }
    }
}

/// When the fixtures start, in seconds since the Unix epoch.
pub const BASE_SECS: u64 = 1_760_000_000;

/// How many bytes a simulated scan examines in all: 100 MiB.
pub const TOTAL_BYTES: u64 = 104_857_600;

/// How many bytes a simulated scan examines in one tick: 10 MiB.
pub const TICK_BYTES: u64 = 10_485_760;

/// A vdev without children.
pub open spec fn leaf_node(
    name: Seq<char>,
    state: VdevState,
    read: u64,
    write: u64,
    cksum: u64,
) -> VdevNode {
    VdevNode {
        row: VdevRow {
            name,
            state,
            is_rebuild_target: false,
            read_err: read,
            write_err: write,
            checksum_err: cksum,
            rebuild_pct: None,
        },
        children: Seq::empty(),
    }
}

/// A vdev with children and without errors of its own.
pub open spec fn group_node(
    name: Seq<char>,
    state: VdevState,
    children: Seq<VdevNode>,
) -> VdevNode {
    VdevNode { row: leaf_node(name, state, 0, 0, 0).row, children }
}

/// A mirror is online while all its sides are.
pub open spec fn mirror_node(children: Seq<VdevNode>) -> VdevNode {
    group_node(
        "mirror-0"@,
        if forall|i: int| 0 <= i < children.len() ==> (#[trigger] children[i]).row.state is Online {
            VdevState::Online
        } else {
            VdevState::Degraded
        },
        children,
    )
}

/// A pool of one mirror of two sides.
pub open spec fn pool_node(state: VdevState, a: VdevNode, b: VdevNode) -> VdevNode {
    group_node("tank"@, state, seq![mirror_node(seq![a, b])])
}

/// How many ticks of a scan have passed, ten at most.
pub open spec fn ticks_done(tick: u64) -> u64 {
    if tick < 10 {
        tick
    } else {
        10
    }
}

/// The number of periods with errors up to a tick.
pub open spec fn error_ticks(scenario: Scenario, tick: u64) -> int {
    if scenario is Errors && tick >= 3 {
        tick - 2
    } else {
        0
    }
}

/// The scan that a running scenario shows: a tenth of the whole in each tick.
pub open spec fn running_scan(scenario: Scenario, tick: u64) -> ScanStats {
    let examined = (ticks_done(tick) * TICK_BYTES) as u64;
    ScanStats {
        func: ScanFunc::Resilver,
        state: if tick >= 10 {
            ScanState::Finished
        } else {
            ScanState::Scanning
        },
        start_time: Some(Timestamp { secs: BASE_SECS as i128, nanos: 0 }),
        end_time: None,
        to_examine: TOTAL_BYTES,
        examined,
        processed: examined,
        skipped: 0,
        errors: (error_ticks(scenario, tick) * 7) as u64,
        issued: examined,
        pass_exam: examined / 2,
        sampled_at: sample_time(tick),
        progress_override: None,
    }
}

/// The replacement disk of a running scenario. It is a full member while it is
/// being rebuilt, so it shows as online.
pub open spec fn rebuilt_disk(scenario: Scenario, tick: u64) -> VdevNode {
    VdevNode {
        row: VdevRow {
            name: "/dev/sdb"@,
            state: VdevState::Online,
            is_rebuild_target: tick < 10,
            read_err: 0,
            write_err: 0,
            checksum_err: (error_ticks(scenario, tick) * 5) as u64,
            rebuild_pct: Some(of_int((ticks_done(tick) * 10) as nat)),
        },
        children: Seq::empty(),
    }
}

/// The scan that the finished scenario shows.
pub open spec fn finished_scan(tick: u64) -> ScanStats {
    ScanStats {
        func: ScanFunc::Resilver,
        state: ScanState::Finished,
        start_time: Some(Timestamp { secs: BASE_SECS as i128, nanos: 0 }),
        end_time: Some(Timestamp { secs: (BASE_SECS + 20) as i128, nanos: 0 }),
        to_examine: TOTAL_BYTES,
        examined: TOTAL_BYTES,
        processed: TOTAL_BYTES,
        skipped: 0,
        errors: 0,
        issued: TOTAL_BYTES,
        pass_exam: 0,
        sampled_at: sample_time(tick),
        progress_override: None,
    }
}

/// When a tick is sampled: two seconds apart.
pub open spec fn sample_time(tick: u64) -> Timestamp {
    Timestamp { secs: (BASE_SECS + tick * 2) as i128, nanos: 0 }
}

/// What a scenario shows at a tick.
pub open spec fn demo_sample(scenario: Scenario, tick: u64) -> PoolView {
    PoolView {
        name: "tank"@,
        scan: match scenario {
            Scenario::Scanning | Scenario::Errors => Some(running_scan(scenario, tick)),
            Scenario::Done => Some(finished_scan(tick)),
            Scenario::Faulted => None,
        },
        root: match scenario {
            Scenario::Scanning | Scenario::Errors => pool_node(
                if error_ticks(scenario, tick) > 0 {
                    VdevState::Degraded
                } else {
                    VdevState::Online
                },
                leaf_node("/dev/sda"@, VdevState::Online, 0, 0, 0),
                rebuilt_disk(scenario, tick),
            ),
            Scenario::Done => pool_node(
                VdevState::Online,
                leaf_node("/dev/sda"@, VdevState::Online, 0, 0, 0),
                leaf_node("/dev/sdb"@, VdevState::Online, 0, 0, 0),
            ),
            Scenario::Faulted => pool_node(
                VdevState::Degraded,
                leaf_node("/dev/sda"@, VdevState::Online, 12, 3, 40),
                leaf_node("/dev/sdb"@, VdevState::Faulted, 900, 120, 4_500),
            ),
        },
        sampled_at: sample_time(tick),
    }
}

fn base_time() -> (t: Timestamp)
    ensures
        t == (Timestamp { secs: BASE_SECS as i128, nanos: 0 }),
{
    Timestamp::from_secs(BASE_SECS)
}

fn leaf(name: &str, state: VdevState, read: u64, write: u64, cksum: u64) -> (r: VdevInfo)
    ensures
        r@ == leaf_node(name@, state, read, write, cksum),
        r.state == state,
{
    let r = VdevInfo {
        name: name.to_owned(),
        state,
        is_rebuild_target: false,
        read_err: read,
        write_err: write,
        checksum_err: cksum,
        rebuild_pct: None,
        children: Vec::new(),
    };
    assert(r@.children =~= Seq::<VdevNode>::empty());
    r
}

fn group(name: &str, state: VdevState, children: Vec<VdevInfo>) -> (r: VdevInfo)
    ensures
        r@ == group_node(name@, state, forest(children@)),
{
    let r = VdevInfo {
        name: name.to_owned(),
        state,
        is_rebuild_target: false,
        read_err: 0,
        write_err: 0,
        checksum_err: 0,
        rebuild_pct: None,
        children,
    };
    proof {
        lemma_children(r);
    }
    r
}

fn mirror(children: Vec<VdevInfo>) -> (r: VdevInfo)
    ensures
        r@ == mirror_node(forest(children@)),
{
    let ghost sides = forest(children@);
    let mut online: bool = true;
    let mut i: usize = 0;
    while i < children.len()
        invariant
            i <= children@.len(),
            sides == forest(children@),
            online <==> forall|k: int|
                0 <= k < i ==> (#[trigger] sides[k]).row.state is Online,
        decreases children@.len() - i,
    {
        assert(sides[i as int] == children@[i as int]@);
        if children[i].state != VdevState::Online {
            online = false;
        }
        i += 1;
    }
    let state = if online {
        VdevState::Online
    } else {
        VdevState::Degraded
    };
    group("mirror-0", state, children)
}

fn pool_tree(state: VdevState, a: VdevInfo, b: VdevInfo) -> (r: VdevInfo)
    ensures
        r@ == pool_node(state, a@, b@),
{
    let mut sides: Vec<VdevInfo> = Vec::new();
    sides.push(a);
    sides.push(b);
    assert(forest(sides@) =~= seq![a@, b@]);
    let m = mirror(sides);
    let mut groups: Vec<VdevInfo> = Vec::new();
    groups.push(m);
    assert(forest(groups@) =~= seq![m@]);
    group("tank", state, groups)
}

/// The snapshot of a scenario at `tick`, where each tick is about one poll.
///
/// The simulated scan examines 100 MiB over 10 ticks.
pub fn sample(scenario: Scenario, tick: u64) -> (r: PoolSnapshot)
    requires
        BASE_SECS + tick * 2 <= u64::MAX,
        scenario is Errors ==> (tick - 2) * 7 <= u64::MAX,
    ensures
        r@ == demo_sample(scenario, tick),
{
    let now = Timestamp::from_secs(BASE_SECS + tick * 2);
    match scenario {
        Scenario::Scanning | Scenario::Errors => {
            let done: u64 = if tick < 10 {
                tick
            } else {
                10
            };
            let examined: u64 = done * TICK_BYTES;
            let bad: u64 = if scenario == Scenario::Errors && tick >= 3 {
                tick - 2
            } else {
                0
            };
            let mut b = leaf("/dev/sdb", VdevState::Online, 0, 0, bad * 5);
            b.is_rebuild_target = tick < 10;
            b.rebuild_pct = Some(Binary64::from_u64(done * 10));
            assert(b@.children =~= Seq::<VdevNode>::empty());
            PoolSnapshot {
                name: "tank".to_owned(),
                scan: Some(
                    ScanStats {
                        func: ScanFunc::Resilver,
                        state: if tick >= 10 {
                            ScanState::Finished
                        } else {
                            ScanState::Scanning
                        },
                        start_time: Some(base_time()),
                        end_time: None,
                        to_examine: TOTAL_BYTES,
                        examined,
                        processed: examined,
                        skipped: 0,
                        errors: bad * 7,
                        issued: examined,
                        pass_exam: examined / 2,
                        sampled_at: now,
                        progress_override: None,
                    },
                ),
                root: pool_tree(
                    if bad > 0 {
                        VdevState::Degraded
                    } else {
                        VdevState::Online
                    },
                    leaf("/dev/sda", VdevState::Online, 0, 0, 0),
                    b,
                ),
                sampled_at: now,
            }
        },
        Scenario::Done => PoolSnapshot {
            name: "tank".to_owned(),
            scan: Some(
                ScanStats {
                    func: ScanFunc::Resilver,
                    state: ScanState::Finished,
                    start_time: Some(base_time()),
                    end_time: Some(Timestamp::from_secs(BASE_SECS + 20)),
                    to_examine: TOTAL_BYTES,
                    examined: TOTAL_BYTES,
                    processed: TOTAL_BYTES,
                    skipped: 0,
                    errors: 0,
                    issued: TOTAL_BYTES,
                    pass_exam: 0,
                    sampled_at: now,
                    progress_override: None,
                },
            ),
            root: pool_tree(
                VdevState::Online,
                leaf("/dev/sda", VdevState::Online, 0, 0, 0),
                leaf("/dev/sdb", VdevState::Online, 0, 0, 0),
            ),
            sampled_at: now,
        },
        // The fault happened outside any scan: absence, not error.
        Scenario::Faulted => PoolSnapshot {
            name: "tank".to_owned(),
            scan: None,
            root: pool_tree(
                VdevState::Degraded,
                leaf("/dev/sda", VdevState::Online, 12, 3, 40),
                leaf("/dev/sdb", VdevState::Faulted, 900, 120, 4_500),
            ),
            sampled_at: now,
        },
    }
}

/// The `i`th ereport at a tick. They spread over the device four GiB apart.
pub open spec fn demo_ereport(tick: u64, i: int) -> EreportView {
    EreportView {
        vdev_path: "/dev/sdb"@,
        vdev_guid: 0x0BADC0DE_00000001,
        io_offset: (i * 0x1_0000_0000) as u64,
        io_size: 131_072,
        kind: if i % 3 == 0 {
            ErrKind::IoRead
        } else {
            ErrKind::Checksum
        },
        ts: sample_time(tick),
    }
}

/// The ereports that accompany the `errors` scenario at the given tick: one
/// for each period with errors.
pub fn ereports(scenario: Scenario, tick: u64) -> (r: Vec<Ereport>)
    requires
        scenario is Errors ==> tick <= 0x1_0000_0002,
    ensures
        reports(r@) == Seq::new(
            error_ticks(scenario, tick) as nat,
            |i: int| demo_ereport(tick, i),
        ),
{
    let mut r: Vec<Ereport> = Vec::new();
    if scenario != Scenario::Errors || tick < 3 {
        assert(reports(r@) =~= Seq::new(0, |i: int| demo_ereport(tick, i)));
        return r;
    }
    let n: u64 = tick - 2;
    let mut i: u64 = 0;
    while i < n
        invariant
            i <= n,
            n == tick - 2,
            tick <= 0x1_0000_0002,
            r@.len() == i,
            forall|k: int| 0 <= k < i ==> (#[trigger] r@[k])@ == demo_ereport(tick, k),
        decreases n - i,
    {
        r.push(
            Ereport {
                vdev_path: "/dev/sdb".to_owned(),
                vdev_guid: 0x0BADC0DE_00000001,
                io_offset: i * 0x1_0000_0000,
                io_size: 131_072,
                kind: if i % 3 == 0 {
                    ErrKind::IoRead
                } else {
                    ErrKind::Checksum
                },
                ts: Timestamp::from_secs(BASE_SECS + tick * 2),
            },
        );
        i += 1;
    }
    r
}

/// A scan without errors never asks for a retry and examines everything in ten
/// ticks; it is finished exactly when everything has been examined.
pub proof fn law_scanning_converges(tick: u64)
    requires
        BASE_SECS + tick * 2 <= u64::MAX,
    ensures
        ({
            let s = demo_sample(Scenario::Scanning, tick);
            let scan = s.scan->Some_0;
            &&& scan.examined == (if tick * TICK_BYTES < TOTAL_BYTES {
                tick * TICK_BYTES
            } else {
                TOTAL_BYTES as int
            })
            &&& scan.state is Finished <==> scan.examined == scan.to_examine
            &&& !wants_retry(s)
        }),
{
    let s = demo_sample(Scenario::Scanning, tick);
    lemma_nothing_in_pool(
        VdevState::Online,
        leaf_node("/dev/sda"@, VdevState::Online, 0, 0, 0),
        rebuilt_disk(Scenario::Scanning, tick),
        recoverable_node(),
    );
}

/// Errors ask for a retry while the scan runs, and no longer once it is
/// finished.
pub proof fn law_errors_ask_for_retry_until_finished(tick: u64)
    requires
        tick >= 3,
        BASE_SECS + tick * 2 <= u64::MAX,
        (tick - 2) * 7 <= u64::MAX,
    ensures
        wants_retry(demo_sample(Scenario::Errors, tick)) <==> tick < 10,
{
    lemma_nothing_in_pool(
        VdevState::Degraded,
        leaf_node("/dev/sda"@, VdevState::Online, 0, 0, 0),
        rebuilt_disk(Scenario::Errors, tick),
        recoverable_node(),
    );
}

/// A faulted disk asks for a replacement, not for a retry; a clean finish asks
/// for neither.
pub proof fn law_fault_asks_for_replacement(tick: u64)
    ensures
        !wants_retry(demo_sample(Scenario::Faulted, tick)),
        some_node(demo_sample(Scenario::Faulted, tick).root, faulted_node()),
        !wants_retry(demo_sample(Scenario::Done, tick)),
        !some_node(demo_sample(Scenario::Done, tick).root, faulted_node()),
{
    let a = leaf_node("/dev/sda"@, VdevState::Online, 12, 3, 40);
    let b = leaf_node("/dev/sdb"@, VdevState::Faulted, 900, 120, 4_500);
    lemma_nothing_in_pool(VdevState::Degraded, a, b, recoverable_node());
    let m = mirror_node(seq![a, b]);
    let root = pool_node(VdevState::Degraded, a, b);
    assert(faulted_node()(b));
    assert(some_node(b, faulted_node()));
    assert(m.children[1] == b);
    assert(some_node(m, faulted_node()));
    assert(root.children[0] == m);
    let c = leaf_node("/dev/sda"@, VdevState::Online, 0, 0, 0);
    let d = leaf_node("/dev/sdb"@, VdevState::Online, 0, 0, 0);
    lemma_nothing_in_pool(VdevState::Online, c, d, recoverable_node());
    lemma_nothing_in_pool(VdevState::Online, c, d, faulted_node());
}

/// A predicate that no node of a two-sided pool satisfies.
proof fn lemma_nothing_in_pool(
    state: VdevState,
    a: VdevNode,
    b: VdevNode,
    p: spec_fn(VdevNode) -> bool,
)
    requires
        a.children.len() == 0,
        b.children.len() == 0,
        !p(a),
        !p(b),
        !p(mirror_node(seq![a, b])),
        !p(pool_node(state, a, b)),
    ensures
        !some_node(pool_node(state, a, b), p),
{
    let m = mirror_node(seq![a, b]);
    let root = pool_node(state, a, b);
    assert(!some_node(a, p));
    assert(!some_node(b, p));
    assert forall|i: int| 0 <= i < m.children.len() implies !some_node(
        #[trigger] m.children[i],
        p,
    ) by {
        assert(m.children[i] == a || m.children[i] == b);
    }
    assert(!some_node(m, p));
    assert forall|i: int| 0 <= i < root.children.len() implies !some_node(
        #[trigger] root.children[i],
        p,
    ) by {
        assert(root.children[i] == m);
    }
}

/// Each scenario has its name, and no other text names one.
pub proof fn law_scenarios_by_name(s: Seq<char>)
    ensures
        scenario_named("scanning"@) == Some(Scenario::Scanning),
        scenario_named("done"@) == Some(Scenario::Done),
        scenario_named("errors"@) == Some(Scenario::Errors),
        scenario_named("fault"@) == Some(Scenario::Faulted),
        scenario_named(s) is Some ==> s == "scanning"@ || s == "done"@ || s == "errors"@ || s
            == "fault"@,
{
    reveal_strlit("scanning");
    reveal_strlit("done");
    reveal_strlit("errors");
    reveal_strlit("fault");
    assert("scanning"@.len() == 8 && "done"@.len() == 4 && "errors"@.len() == 6 && "fault"@.len()
        == 5);
}

/// From one tick to the next two seconds pass. A running scan examines ten MiB more
/// until it has examined all, and the percentage of the disk grows by ten. From the
/// third tick on every tick of the error scenario adds seven errors to the scan and
/// five to the disk; no other scenario has any.
pub proof fn law_ticks_advance(scenario: Scenario, tick: u64)
    requires
        scenario is Scanning || scenario is Errors,
        tick < 0x1000_0000,
    ensures
        ({
            let a = demo_sample(scenario, tick);
            let b = demo_sample(scenario, (tick + 1) as u64);
            let disk = a.root.children[0].children[1].row;
            let next = b.root.children[0].children[1].row;
            let x = a.scan->Some_0;
            let y = b.scan->Some_0;
            &&& a.scan is Some && b.scan is Some
            &&& a.name == "tank"@ && a.root.row.name == "tank"@
            &&& b.sampled_at.secs == a.sampled_at.secs + 2
            &&& x.to_examine == 100 * 0x10_0000 && y.to_examine == x.to_examine
            &&& tick == 0 ==> x.examined == 0
            &&& tick < 10 ==> y.examined == x.examined + 10 * 0x10_0000
            &&& tick >= 10 ==> y.examined == x.examined && x.examined == x.to_examine
            &&& x.state is Finished <==> tick >= 10
            &&& x.state is Scanning <==> tick < 10
            &&& disk.name == "/dev/sdb"@
            &&& disk.is_rebuild_target <==> tick < 10
            &&& tick <= 10 ==> disk.rebuild_pct == Some(of_int((10 * tick) as nat))
            &&& scenario is Scanning ==> x.errors == 0 && disk.checksum_err == 0
            &&& scenario is Errors && tick < 3 ==> x.errors == 0 && disk.checksum_err == 0
            &&& scenario is Errors && tick >= 2 ==> y.errors == x.errors + 7 && next.checksum_err
                == disk.checksum_err + 5
            &&& scenario is Errors ==> (a.root.row.state is Degraded <==> tick >= 3)
            &&& scenario is Scanning ==> a.root.row.state is Online
        }),
{
    let sides = seq![
        leaf_node("/dev/sda"@, VdevState::Online, 0, 0, 0),
        rebuilt_disk(scenario, tick),
    ];
    assert(demo_sample(scenario, tick).root.children[0].children == sides);
}

/// The events of the error scenario lie four GiB apart from the start of the disk
/// on; every third is a read error and the others are checksum errors.
pub proof fn law_demo_events_spread(tick: u64, i: int)
    requires
        0 <= i < 0x1_0000_0000,
    ensures
        demo_ereport(tick, i).vdev_path == "/dev/sdb"@,
        demo_ereport(tick, i).io_offset == i * 0x1_0000_0000,
        demo_ereport(tick, i).kind is IoRead <==> i % 3 == 0,
        demo_ereport(tick, i).kind is Checksum <==> i % 3 != 0,
        demo_ereport(tick, i).ts == demo_sample(Scenario::Errors, tick).sampled_at,
{
}

/// The fixtures start at one fixed time.
pub proof fn law_fixtures_start_at_a_fixed_time(scenario: Scenario, tick: u64)
    requires
        tick < 0x1000_0000,
    ensures
        demo_sample(scenario, tick).sampled_at.secs == 1_760_000_000 + 2 * tick,
        demo_sample(scenario, tick).sampled_at.nanos == 0,
{
}

/// The finished scenario has examined everything without an error; the faulted one
/// has no scan, and its errors are those of its disks.
pub proof fn law_still_scenarios(tick: u64)
    ensures
        ({
            let done = demo_sample(Scenario::Done, tick);
            let fault = demo_sample(Scenario::Faulted, tick);
            let scan = done.scan->Some_0;
            let a = fault.root.children[0].children[0].row;
            let b = fault.root.children[0].children[1].row;
            &&& done.scan is Some && scan.state is Finished && scan.errors == 0
            &&& scan.examined == scan.to_examine && scan.to_examine == 100 * 0x10_0000
            &&& scan.end_time matches Some(t) && t.secs == 1_760_000_020
            &&& done.root.row.state is Online && done.root.children[0].row.state is Online
            &&& fault.scan is None
            &&& fault.root.row.state is Degraded && fault.root.children[0].row.state is Degraded
            &&& a.state is Online && a.read_err == 12 && a.write_err == 3 && a.checksum_err == 40
            &&& b.state is Faulted && b.read_err == 900 && b.write_err == 120 && b.checksum_err
                == 4_500
        }),
{
    let sides = demo_sample(Scenario::Faulted, tick).root.children[0].children;
    assert(!(sides[1].row.state is Online));
}

} // verus!
