//! Snapshot data model for ZFS pool scan monitoring.
//!
//! Everything here is a *sample*: an immutable, timestamped view of kernel
//! state at one instant. Nothing is carried from one sample to the next.
//!
//! Field names mirror the rows of the scan kstat and the vdev states of
//! `zpool status -v`, so that a collector can fill these structs almost
//! mechanically.

use crate::binary64::{
    clamp_unit, lemma_bits_order, lemma_clamp_unit, lemma_mantissa, lemma_nearest_zero,
    lemma_of_int, lemma_of_zero, lemma_quotient_of_ints, lt, of_int, one, quotient, zero, Binary64,
    INFINITY, ONE,
};
use crate::rounding::{lemma_of_int_mono, lemma_quotient_mono, lemma_self_quotient};
use vstd::prelude::*;

verus! {

/// A point in time, as seconds since the Unix epoch, less than zero before it, and
/// the nanoseconds that have passed since that second.
#[derive(Debug, Clone, Copy, PartialEq, Eq, Structural)]
pub struct Timestamp {
    pub secs: i128,
    pub nanos: u32,
}

/// How many nanoseconds a second has.
pub const SECOND_NANOS: u32 = 1_000_000_000;

/// How many nanoseconds a point in time lies behind the Unix epoch; less than
/// zero before it.
pub open spec fn since_epoch(t: Timestamp) -> int {
    t.secs * SECOND_NANOS + t.nanos
}

impl Timestamp {
    /// `secs` seconds after the Unix epoch.
    pub fn from_secs(secs: u64) -> (t: Timestamp)
        ensures
            t == (Timestamp { secs: secs as i128, nanos: 0 }),
    {
        Timestamp { secs: secs as i128, nanos: 0 }
    }

    /// The point in time that lies so many seconds and nanoseconds behind the Unix
    /// epoch, or before it.
    pub fn from_epoch(before: bool, secs: u64, nanos: u32) -> (t: Timestamp)
        requires
            nanos < SECOND_NANOS,
        ensures
            since_epoch(t) == (if before {
                -(secs * SECOND_NANOS + nanos)
            } else {
                secs * SECOND_NANOS + nanos
            }),
            t.nanos < SECOND_NANOS,
    {
        if !before {
            Timestamp { secs: secs as i128, nanos }
        } else if nanos == 0 {
            Timestamp { secs: -(secs as i128), nanos: 0 }
        } else {
            Timestamp { secs: -(secs as i128) - 1, nanos: SECOND_NANOS - nanos }
        }
    }
}

/// What kind of scan the pool is running (kstat `func` field).
#[derive(Debug, Clone, Copy, PartialEq, Eq, Structural)]
pub enum ScanFunc {
    Resilver,
    Scrub,
    ErrorScrub,
}

/// Lifecycle state of the scan (kstat `state` field).
#[derive(Debug, Clone, Copy, PartialEq, Eq, Structural)]
pub enum ScanState {
    /// No scan has been requested since boot or import.
    Idle,
    /// A resilver or scrub is actively running.
    Scanning,
    /// The last scan completed normally.
    Finished,
    /// The last scan was canceled before completing.
    Canceled,
}

/// One sample of the pool-wide scan kstats. All counters are cumulative for
/// the current scan.
#[derive(Debug, Clone, Copy, PartialEq)]
pub struct ScanStats {
    pub func: ScanFunc,
    pub state: ScanState,
    /// When the scan started; `None` while no scan is running or recorded.
    pub start_time: Option<Timestamp>,
    /// When the scan ended; `None` until it actually ends.
    pub end_time: Option<Timestamp>,
    pub to_examine: u64,
    pub examined: u64,
    pub processed: u64,
    pub skipped: u64,
    pub errors: u64,
    pub issued: u64,
    pub pass_exam: u64,
    /// When this sample was taken.
    pub sampled_at: Timestamp,
    /// Progress ratio known independently of byte counters.
    pub progress_override: Option<Binary64>,
}

/// The progress ratio of a scan: the one that was given, or the share of what
/// has been examined; held between zero and one, and none where there is
/// nothing to examine or what was given is not a number.
pub open spec fn progress_ratio(s: ScanStats) -> Option<Binary64> {
    match s.progress_override {
        Some(r) => if r.is_nan() {
            None
        } else {
            Some(clamp_unit(r))
        },
        None => if s.to_examine == 0 {
            None
        } else {
            Some(clamp_unit(quotient(of_int(s.examined as nat), of_int(s.to_examine as nat))))
        },
    }
}

impl ScanStats {
    /// Progress ratio between zero and one, or `None` when not computable.
    ///
    /// This is the only source of a progress ratio. It guards against a
    /// division by zero and against counters out of range, so that display
    /// code never meets a ratio that is not a number.
    #[must_use]
    pub fn progress(&self) -> (r: Option<Binary64>)
        ensures
            r == progress_ratio(*self),
            r matches Some(x) ==> !x.is_nan() && !lt(x, zero()) && !lt(one(), x),
    {
        proof {
            law_progress_is_a_ratio(*self);
        }
        if let Some(r) = self.progress_override {
            if r.magnitude_of() > INFINITY {
                return None;
            }
            return Some(r.clamped());
        }
        if self.to_examine == 0 {
            return None;
        }
        proof {
            lemma_of_int(self.to_examine as nat);
        }
        let n = Binary64::from_u64(self.examined);
        let d = Binary64::from_u64(self.to_examine);
        Some(n.over(d).clamped())
    }
}

/// No progress bar ever meets a ratio that is not a number or out of range,
/// whatever a sample holds: progress is between zero and one, or unknown. It is
/// known where there is something to examine.
pub proof fn law_progress_is_a_ratio(s: ScanStats)
    ensures
        progress_ratio(s) matches Some(x) ==> !x.is_nan() && !lt(x, zero()) && !lt(one(), x),
        s.progress_override is None ==> (progress_ratio(s) is Some <==> s.to_examine > 0),
{
    match s.progress_override {
        Some(r) => {
            lemma_clamp_unit(r);
        },
        None => {
            if s.to_examine > 0 {
                lemma_quotient_of_ints(s.examined as nat, s.to_examine as nat);
                lemma_clamp_unit(
                    quotient(of_int(s.examined as nat), of_int(s.to_examine as nat)),
                );
            }
        },
    }
}

/// Health of one vdev as reported by `zpool status -v`.
#[derive(Debug, Clone, Copy, PartialEq, Eq, Structural)]
pub enum VdevState {
    Online,
    Degraded,
    Faulted,
    Offline,
    Removed,
    Unavail,
}

/// How bad a vdev state is: 0 healthy, 1 degraded, 2 fault.
pub open spec fn severity(s: VdevState) -> u8 {
    match s {
        VdevState::Online | VdevState::Offline => 0,
        VdevState::Degraded => 1,
        VdevState::Faulted | VdevState::Removed | VdevState::Unavail => 2,
    }
}

impl VdevState {
    /// Tab-bar grading rank: 0 = healthy, 1 = degraded, 2 = fault.
    ///
    /// `Offline` grades healthy on purpose: taking a vdev offline is an
    /// intentional operator action, not a failure that the pool tab should
    /// alarm on.
    #[must_use]
    pub fn tab_severity(self) -> (r: u8)
        ensures
            r == severity(self),
    {
        match self {
            VdevState::Online | VdevState::Offline => 0,
            VdevState::Degraded => 1,
            VdevState::Faulted | VdevState::Removed | VdevState::Unavail => 2,
        }
    }
}

/// Pool-wide health grade for the tab bar.
#[derive(Debug, Clone, Copy, PartialEq, Eq, Structural)]
pub enum PoolHealth {
    /// Every vdev online, or offline by an intentional operator action.
    Healthy,
    /// Redundancy reduced but the pool keeps serving data.
    Degraded,
    /// Faulted, unavailable or removed somewhere: needs replacement.
    Fault,
}

/// The order of grades.
pub open spec fn grade_rank(h: PoolHealth) -> int {
    match h {
        PoolHealth::Healthy => 0,
        PoolHealth::Degraded => 1,
        PoolHealth::Fault => 2,
    }
}

/// The worse of two grades.
pub open spec fn worse(a: PoolHealth, b: PoolHealth) -> PoolHealth {
    if grade_rank(a) >= grade_rank(b) {
        a
    } else {
        b
    }
}

impl PoolHealth {
    /// Worst-of merge for the tree walk.
    #[must_use]
    pub fn worst(self, other: Self) -> (r: Self)
        ensures
            r == worse(self, other),
    {
        match (self, other) {
            (PoolHealth::Fault, _) | (_, PoolHealth::Fault) => PoolHealth::Fault,
            (PoolHealth::Degraded, _) | (_, PoolHealth::Degraded) => PoolHealth::Degraded,
            (PoolHealth::Healthy, PoolHealth::Healthy) => PoolHealth::Healthy,
        }
    }
}

/// One node in the pool's vdev tree. Interiors (mirror, raidz, root) carry
/// their children recursively; leaves are physical devices.
#[derive(Debug, PartialEq)]
pub struct VdevInfo {
    pub name: String,
    pub state: VdevState,
    /// True while this device is being resilvered into.
    pub is_rebuild_target: bool,
    pub read_err: u64,
    pub write_err: u64,
    pub checksum_err: u64,
    /// Completion percentage for this device, if known.
    pub rebuild_pct: Option<Binary64>,
    pub children: Vec<VdevInfo>,
}

/// What one row says of a vdev, without its children.
pub struct VdevRow {
    pub name: Seq<char>,
    pub state: VdevState,
    pub is_rebuild_target: bool,
    pub read_err: u64,
    pub write_err: u64,
    pub checksum_err: u64,
    pub rebuild_pct: Option<Binary64>,
}

/// A vdev tree.
pub struct VdevNode {
    pub row: VdevRow,
    pub children: Seq<VdevNode>,
}

impl VdevInfo {
    /// What the node says of itself.
    pub open spec fn row(self) -> VdevRow {
        VdevRow {
            name: self.name@,
            state: self.state,
            is_rebuild_target: self.is_rebuild_target,
            read_err: self.read_err,
            write_err: self.write_err,
            checksum_err: self.checksum_err,
            rebuild_pct: self.rebuild_pct,
        }
    }

    /// The tree below and with this node.
    pub open spec fn node(self) -> VdevNode
        decreases self,
    {
        VdevNode {
            row: self.row(),
            children: Seq::new(
                self.children@.len(),
                |i: int|
                    if 0 <= i < self.children@.len() {
                        self.children@[i].node()
                    } else {
                        arbitrary()
                    },
            ),
        }
    }
}

impl View for VdevInfo {
    type V = VdevNode;

    open spec fn view(&self) -> VdevNode {
        self.node()
    }
}

/// The trees of a list of nodes.
pub open spec fn forest(v: Seq<VdevInfo>) -> Seq<VdevNode> {
    Seq::new(v.len(), |i: int| v[i]@)
}

pub proof fn lemma_children(v: VdevInfo)
    ensures
        v@.children =~= forest(v.children@),
        v@.row == v.row(),
{
}

impl Clone for VdevInfo {
    fn clone(&self) -> (r: Self)
        ensures
            r@ == self@,
        decreases self,
    {
        let mut children: Vec<VdevInfo> = Vec::new();
        let mut i: usize = 0;
        while i < self.children.len()
            invariant
                i <= self.children@.len(),
                children@.len() == i,
                forall|k: int| 0 <= k < i ==> children@[k]@ == #[trigger] self.children@[k]@,
            decreases self.children@.len() - i,
        {
            children.push(self.children[i].clone());
            i += 1;
        }
        let r = VdevInfo {
            name: self.name.clone(),
            state: self.state,
            is_rebuild_target: self.is_rebuild_target,
            read_err: self.read_err,
            write_err: self.write_err,
            checksum_err: self.checksum_err,
            rebuild_pct: self.rebuild_pct,
            children,
        };
        proof {
            lemma_children(r);
            lemma_children(*self);
            assert(forest(r.children@) =~= forest(self.children@));
        }
        r
    }
}

/// A complete, self-contained observation of one pool at one instant.
#[derive(Debug, PartialEq)]
pub struct PoolSnapshot {
    pub name: String,
    /// `None` when there is no scan record: absence, not failure.
    pub scan: Option<ScanStats>,
    pub root: VdevInfo,
    pub sampled_at: Timestamp,
}

/// What a snapshot says.
pub struct PoolView {
    pub name: Seq<char>,
    pub scan: Option<ScanStats>,
    pub root: VdevNode,
    pub sampled_at: Timestamp,
}

impl View for PoolSnapshot {
    type V = PoolView;

    open spec fn view(&self) -> PoolView {
        PoolView {
            name: self.name@,
            scan: self.scan,
            root: self.root@,
            sampled_at: self.sampled_at,
        }
    }
}

impl Clone for PoolSnapshot {
    fn clone(&self) -> (r: Self)
        ensures
            r@ == self@,
    {
        PoolSnapshot {
            name: self.name.clone(),
            scan: self.scan,
            root: self.root.clone(),
            sampled_at: self.sampled_at,
        }
    }
}

/// Kind of I/O error reported by a ZFS ereport.
#[derive(Debug, Clone, Copy, PartialEq, Eq, Structural)]
pub enum ErrKind {
    Checksum,
    IoRead,
    IoWrite,
}

/// A single ZFS ereport event (checksum or I/O error).
#[derive(Debug, PartialEq)]
pub struct Ereport {
    pub vdev_path: String,
    pub vdev_guid: u64,
    pub io_offset: u64,
    pub io_size: u64,
    pub kind: ErrKind,
    pub ts: Timestamp,
}

/// What an ereport says.
pub struct EreportView {
    pub vdev_path: Seq<char>,
    pub vdev_guid: u64,
    pub io_offset: u64,
    pub io_size: u64,
    pub kind: ErrKind,
    pub ts: Timestamp,
}

impl View for Ereport {
    type V = EreportView;

    open spec fn view(&self) -> EreportView {
        EreportView {
            vdev_path: self.vdev_path@,
            vdev_guid: self.vdev_guid,
            io_offset: self.io_offset,
            io_size: self.io_size,
            kind: self.kind,
            ts: self.ts,
        }
    }
}

impl Clone for Ereport {
    fn clone(&self) -> (r: Self)
        ensures
            r@ == self@,
    {
        Ereport {
            vdev_path: self.vdev_path.clone(),
            vdev_guid: self.vdev_guid,
            io_offset: self.io_offset,
            io_size: self.io_size,
            kind: self.kind,
            ts: self.ts,
        }
    }
}

/// What a list of ereports says.
pub open spec fn reports(v: Seq<Ereport>) -> Seq<EreportView> {
    Seq::new(v.len(), |i: int| v[i]@)
}

/// Whether some node of a tree, interior nodes included, satisfies `p`.
pub open spec fn some_node(n: VdevNode, p: spec_fn(VdevNode) -> bool) -> bool
    decreases n,
{
    p(n) || exists|i: int| 0 <= i < n.children.len() && some_node(#[trigger] n.children[i], p)
}

/// The predicate of nodes whose state is at least as bad as `level`.
pub open spec fn at_least(level: u8) -> spec_fn(VdevNode) -> bool {
    |n: VdevNode| severity(n.row.state) >= level
}

/// The predicate of nodes that another repair cycle may bring back: anything
/// unavailable, and devices that are degraded.
pub open spec fn recoverable_node() -> spec_fn(VdevNode) -> bool {
    |n: VdevNode|
        n.row.state is Unavail || (n.children.len() == 0 && n.row.state is Degraded)
}

/// The predicate of faulted nodes.
pub open spec fn faulted_node() -> spec_fn(VdevNode) -> bool {
    |n: VdevNode| n.row.state is Faulted
}

/// The grade of a vdev tree: that of its worst node.
pub open spec fn tree_grade(n: VdevNode) -> PoolHealth {
    if some_node(n, at_least(2)) {
        PoolHealth::Fault
    } else if some_node(n, at_least(1)) {
        PoolHealth::Degraded
    } else {
        PoolHealth::Healthy
    }
}

/// Whether a snapshot warrants another monitor cycle or repair attempt: errors
/// in a scan that is not finished, or a node that may be brought back.
pub open spec fn wants_retry(s: PoolView) -> bool {
    ||| (s.scan matches Some(scan) && scan.errors > 0 && scan.state != ScanState::Finished)
    ||| some_node(s.root, recoverable_node())
}

impl PoolSnapshot {
    /// Worst-case health over the whole vdev tree, interior nodes included.
    ///
    /// It is computed from this snapshot alone, so a recovered pool is
    /// healthy again on the next poll.
    #[must_use]
    pub fn health(&self) -> (r: PoolHealth)
        ensures
            r == tree_grade(self@.root),
    {
        tree_health(&self.root)
    }
}

fn tree_health(vdev: &VdevInfo) -> (r: PoolHealth)
    ensures
        r == tree_grade(vdev@),
    decreases vdev,
{
    let own = match vdev.state.tab_severity() {
        0 => PoolHealth::Healthy,
        1 => PoolHealth::Degraded,
        _ => PoolHealth::Fault,
    };
    let ghost n = vdev@;
    let ghost bad = at_least(2);
    let ghost poor = at_least(1);
    proof {
        lemma_children(*vdev);
        lemma_worst_first(n);
    }
    let mut acc = own;
    let mut i: usize = 0;
    while i < vdev.children.len()
        invariant
            i <= vdev.children@.len(),
            n == vdev@,
            n.children == forest(vdev.children@),
            bad == at_least(2),
            poor == at_least(1),
            (acc == PoolHealth::Fault) <==> (bad(n) || exists|k: int|
                0 <= k < i && some_node(#[trigger] n.children[k], bad)),
            (acc != PoolHealth::Healthy) <==> (poor(n) || exists|k: int|
                0 <= k < i && some_node(#[trigger] n.children[k], poor)),
        decreases vdev.children@.len() - i,
    {
        let h = tree_health(&vdev.children[i]);
        proof {
            assert(n.children[i as int] == vdev.children@[i as int]@);
            lemma_worst_first(n.children[i as int]);
        }
        acc = acc.worst(h);
        i += 1;
    }
    acc
}

/// A fault is also a degradation.
proof fn lemma_worst_first(n: VdevNode)
    ensures
        some_node(n, at_least(2)) ==> some_node(n, at_least(1)),
{
    if some_node(n, at_least(2)) {
        lemma_some_node(n, at_least(2), at_least(1));
    }
}

/// What holds of a node by one predicate holds of it by a weaker one.
pub proof fn lemma_some_node(
    n: VdevNode,
    p: spec_fn(VdevNode) -> bool,
    q: spec_fn(VdevNode) -> bool,
)
    requires
        some_node(n, p),
        forall|m: VdevNode| #[trigger] p(m) ==> q(m),
    ensures
        some_node(n, q),
    decreases n,
{
    if !p(n) {
        let i = choose|i: int|
            0 <= i < n.children.len() && some_node(#[trigger] n.children[i], p);
        lemma_some_node(n.children[i], p, q);
    }
}

/// Whether a snapshot warrants another monitor cycle or repair attempt.
///
/// True when a scan has errors and is not finished, or when the topology holds
/// a degraded device or anything that is unavailable.
///
/// Faulted, offline and removed devices do not count: retrying against a dead
/// device accomplishes nothing. They need replacement first.
#[must_use]
pub fn retry_needed(snapshot: &PoolSnapshot) -> (r: bool)
    ensures
        r == wants_retry(snapshot@),
{
    if let Some(scan) = &snapshot.scan {
        if scan.errors > 0 && scan.state != ScanState::Finished {
            return true;
        }
    }
    tree_has_recoverable_leaf(&snapshot.root)
}

fn tree_has_recoverable_leaf(vdev: &VdevInfo) -> (r: bool)
    ensures
        r == some_node(vdev@, recoverable_node()),
    decreases vdev,
{
    let ghost n = vdev@;
    let ghost p = recoverable_node();
    proof {
        lemma_children(*vdev);
    }
    if vdev.state == VdevState::Unavail {
        assert(p(n));
        return true;
    }
    if vdev.children.len() == 0 {
        assert(p(n) <==> vdev.state == VdevState::Degraded);
        return vdev.state == VdevState::Degraded;
    }
    let mut i: usize = 0;
    while i < vdev.children.len()
        invariant
            i <= vdev.children@.len(),
            n == vdev@,
            p == recoverable_node(),
            n.children == forest(vdev.children@),
            forall|k: int| 0 <= k < i ==> !some_node(#[trigger] n.children[k], p),
        decreases vdev.children@.len() - i,
    {
        assert(n.children[i as int] == vdev.children@[i as int]@);
        if tree_has_recoverable_leaf(&vdev.children[i]) {
            return true;
        }
        i += 1;
    }
    assert(!p(n));
    false
}

/// Whether any node of a tree is faulted.
pub fn tree_has_faulted(vdev: &VdevInfo) -> (r: bool)
    ensures
        r == some_node(vdev@, faulted_node()),
    decreases vdev,
{
    let ghost n = vdev@;
    let ghost p = faulted_node();
    proof {
        lemma_children(*vdev);
    }
    if vdev.state == VdevState::Faulted {
        assert(p(n));
        return true;
    }
    let mut i: usize = 0;
    while i < vdev.children.len()
        invariant
            i <= vdev.children@.len(),
            n == vdev@,
            p == faulted_node(),
            n.children == forest(vdev.children@),
            forall|k: int| 0 <= k < i ==> !some_node(#[trigger] n.children[k], p),
        decreases vdev.children@.len() - i,
    {
        assert(n.children[i as int] == vdev.children@[i as int]@);
        if tree_has_faulted(&vdev.children[i]) {
            return true;
        }
        i += 1;
    }
    assert(!p(n));
    false
}

/// Merging grades is commutative, associative and idempotent, and a healthy
/// vdev changes no grade.
pub proof fn law_worst_is_a_maximum(a: PoolHealth, b: PoolHealth, c: PoolHealth)
    ensures
        worse(a, b) == worse(b, a),
        worse(worse(a, b), c) == worse(a, worse(b, c)),
        worse(a, a) == a,
        worse(a, PoolHealth::Healthy) == a,
        grade_rank(worse(a, b)) >= grade_rank(a),
        grade_rank(worse(a, b)) >= grade_rank(b),
{
}

/// Severity is monotonic: a pool grades no better than any part of its tree.
pub proof fn law_grade_is_monotonic(n: VdevNode, i: int)
    requires
        0 <= i < n.children.len(),
    ensures
        grade_rank(tree_grade(n)) >= grade_rank(tree_grade(n.children[i])),
        grade_rank(tree_grade(n)) >= severity(n.row.state),
{
    assert(at_least(2)(n) <==> severity(n.row.state) >= 2);
    assert(at_least(1)(n) <==> severity(n.row.state) >= 1);
    lemma_worst_first(n);
    lemma_worst_first(n.children[i]);
}

/// A pool whose vdevs are all online or offline grades healthy, and neither
/// asks for a retry by its topology nor for a replacement. So a recovered pool
/// reverts as soon as a snapshot shows it.
pub proof fn law_recovered_pool_is_healthy(n: VdevNode)
    requires
        !some_node(n, at_least(1)),
    ensures
        tree_grade(n) == PoolHealth::Healthy,
        !some_node(n, recoverable_node()),
        !some_node(n, faulted_node()),
{
    lemma_worst_first(n);
    if some_node(n, recoverable_node()) {
        lemma_some_node(n, recoverable_node(), at_least(1));
    }
    if some_node(n, faulted_node()) {
        lemma_some_node(n, faulted_node(), at_least(1));
    }
}

/// A retry that the topology asks for is visible in the grade, and a faulted
/// vdev always grades as a fault.
pub proof fn law_alarms_show_in_the_grade(n: VdevNode)
    ensures
        some_node(n, recoverable_node()) ==> tree_grade(n) != PoolHealth::Healthy,
        some_node(n, faulted_node()) ==> tree_grade(n) == PoolHealth::Fault,
{
    if some_node(n, recoverable_node()) {
        lemma_some_node(n, recoverable_node(), at_least(1));
    }
    if some_node(n, faulted_node()) {
        lemma_some_node(n, faulted_node(), at_least(2));
    }
}

/// A finished scan never asks for a retry by itself, whatever its errors, and
/// a scan that has errors and is not finished always does.
pub proof fn law_only_unfinished_errors_retry(s: PoolView)
    ensures
        (s.scan matches Some(scan) && scan.state == ScanState::Finished) ==> wants_retry(s)
            == some_node(s.root, recoverable_node()),
        s.scan is None ==> wants_retry(s) == some_node(s.root, recoverable_node()),
        (s.scan matches Some(scan) && scan.state != ScanState::Finished && scan.errors > 0)
            ==> wants_retry(s),
{
}

/// An unavailable group asks for a retry even when every device below it is
/// faulted: enough replacements bring it back.
pub proof fn law_unavailable_group_is_recoverable(n: VdevNode)
    requires
        n.row.state is Unavail,
    ensures
        some_node(n, recoverable_node()),
{
    assert(recoverable_node()(n));
}

/// The share of what has been examined, before it is held in range.
proof fn lemma_share_of_examined(examined: u64, to_examine: u64)
    requires
        to_examine > 0,
    ensures
        ({
            let q = quotient(of_int(examined as nat), of_int(to_examine as nat));
            &&& q.bits < INFINITY
            &&& clamp_unit(q) == (if q.bits <= ONE {
                q
            } else {
                one()
            })
        }),
{
    lemma_quotient_of_ints(examined as nat, to_examine as nat);
    let q = quotient(of_int(examined as nat), of_int(to_examine as nat));
    lemma_bits_order(one(), q);
    lemma_bits_order(q, zero());
}

/// Progress is zero at the start and one once everything has been examined, or
/// more than everything.
pub proof fn law_progress_reaches_its_ends(s: ScanStats)
    requires
        s.progress_override is None,
        s.to_examine > 0,
    ensures
        s.examined == 0 ==> progress_ratio(s) == Some(zero()),
        s.examined >= s.to_examine ==> progress_ratio(s) == Some(one()),
{
    let d = of_int(s.to_examine as nat);
    lemma_of_int(s.to_examine as nat);
    lemma_share_of_examined(s.examined, s.to_examine);
    if s.examined == 0 {
        lemma_of_zero();
        lemma_mantissa(d);
        lemma_nearest_zero(d.mantissa(), zero().exponent() - d.exponent());
    }
    if s.examined >= s.to_examine {
        lemma_of_int(s.examined as nat);
        lemma_of_int_mono(s.to_examine as nat, s.examined as nat);
        lemma_quotient_mono(d, of_int(s.examined as nat), d);
        lemma_self_quotient(d);
    }
}

/// Progress never runs backwards while a scan examines more.
pub proof fn law_progress_never_runs_backwards(s: ScanStats, t: ScanStats)
    requires
        s.progress_override is None,
        t.progress_override is None,
        s.to_examine == t.to_examine,
        s.examined <= t.examined,
    ensures
        progress_ratio(s) is Some <==> progress_ratio(t) is Some,
        progress_ratio(s) matches Some(x) ==> !lt(progress_ratio(t)->Some_0, x),
{
    if s.to_examine > 0 {
        let d = of_int(s.to_examine as nat);
        lemma_of_int(s.to_examine as nat);
        lemma_share_of_examined(s.examined, s.to_examine);
        lemma_share_of_examined(t.examined, t.to_examine);
        lemma_of_int_mono(s.examined as nat, t.examined as nat);
        if t.examined > 0 {
            lemma_of_int(t.examined as nat);
        } else {
            lemma_of_zero();
        }
        lemma_quotient_mono(of_int(s.examined as nat), of_int(t.examined as nat), d);
        let x = progress_ratio(s)->Some_0;
        let y = progress_ratio(t)->Some_0;
        assert(x.bits <= y.bits);
        lemma_bits_order(y, x);
    }
}

} // verus!
