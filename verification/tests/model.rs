use zresmon::binary64::Binary64;
use zresmon::demo::{sample, Scenario};
use zresmon::model::{
    retry_needed, tree_has_faulted, PoolHealth, PoolSnapshot, ScanFunc, ScanState, ScanStats,
    Timestamp, VdevInfo, VdevState,
};

fn ts(secs: u64) -> Timestamp {
    Timestamp::from_secs(secs)
}

fn num(x: f64) -> Binary64 {
    Binary64 { bits: x.to_bits() }
}

fn node(name: &str, state: VdevState, children: Vec<VdevInfo>) -> VdevInfo {
    VdevInfo {
        name: name.to_string(),
        state,
        is_rebuild_target: false,
        read_err: 0,
        write_err: 0,
        checksum_err: 0,
        rebuild_pct: None,
        children,
    }
}

fn leaf(name: &str, state: VdevState) -> VdevInfo {
    node(name, state, Vec::new())
}

fn mirror(children: Vec<VdevInfo>) -> VdevInfo {
    node("mirror-0", VdevState::Online, children)
}

fn scan(state: ScanState, errors: u64, to_examine: u64, examined: u64) -> ScanStats {
    ScanStats {
        func: ScanFunc::Resilver,
        state,
        start_time: Some(ts(100)),
        end_time: None,
        to_examine,
        examined,
        processed: 0,
        skipped: 0,
        errors,
        issued: 0,
        pass_exam: 0,
        sampled_at: ts(200),
        progress_override: None,
    }
}

fn snapshot(scan: Option<ScanStats>, root: VdevInfo) -> PoolSnapshot {
    PoolSnapshot { name: "tank".to_string(), scan, root, sampled_at: ts(300) }
}

#[test]
fn clean_scan_healthy_pool_needs_no_retry() {
    let snap = snapshot(
        Some(scan(ScanState::Scanning, 0, 1000, 500)),
        mirror(vec![leaf("sda", VdevState::Online), leaf("sdb", VdevState::Online)]),
    );
    assert!(!retry_needed(&snap));
}

#[test]
fn scan_errors_while_scanning_need_retry() {
    let snap = snapshot(
        Some(scan(ScanState::Scanning, 3, 1000, 500)),
        mirror(vec![leaf("sda", VdevState::Online), leaf("sdb", VdevState::Online)]),
    );
    assert!(retry_needed(&snap));
}

#[test]
fn canceled_scan_with_errors_needs_retry() {
    let snap = snapshot(
        Some(scan(ScanState::Canceled, 1, 1000, 10)),
        mirror(vec![leaf("sda", VdevState::Online), leaf("sdb", VdevState::Online)]),
    );
    assert!(retry_needed(&snap));
}

#[test]
fn finished_scan_with_errors_does_not_retry_by_itself() {
    let snap = snapshot(
        Some(scan(ScanState::Finished, 7, 1000, 1000)),
        mirror(vec![leaf("sda", VdevState::Online), leaf("sdb", VdevState::Online)]),
    );
    assert!(!retry_needed(&snap));
}

#[test]
fn degraded_leaf_vdev_needs_retry() {
    let snap = snapshot(
        Some(scan(ScanState::Idle, 0, 0, 0)),
        mirror(vec![leaf("sda", VdevState::Online), leaf("sdb", VdevState::Degraded)]),
    );
    assert!(retry_needed(&snap));
}

#[test]
fn unavail_leaf_vdev_needs_retry() {
    let snap = snapshot(None, mirror(vec![leaf("sdd", VdevState::Unavail)]));
    assert!(retry_needed(&snap));
}

fn dead_pool(leaves: Vec<VdevInfo>) -> PoolSnapshot {
    let raid = node("raidz1-0", VdevState::Unavail, leaves);
    snapshot(None, node("pool", VdevState::Unavail, vec![raid]))
}

#[test]
fn unavail_raid_group_with_faulted_leaves_is_recoverable() {
    let snap = dead_pool(vec![
        leaf("d1", VdevState::Faulted),
        leaf("d2", VdevState::Faulted),
        leaf("d3", VdevState::Faulted),
    ]);
    assert!(retry_needed(&snap));
}

#[test]
fn faulted_leaf_alone_does_not_trigger() {
    let snap = snapshot(
        Some(scan(ScanState::Idle, 0, 0, 0)),
        mirror(vec![leaf("sdz", VdevState::Faulted)]),
    );
    assert!(!retry_needed(&snap));
}

#[test]
fn deep_tree_recursion_finds_nested_leaf() {
    let inner = node(
        "mirror-1",
        VdevState::Degraded,
        vec![leaf("nvme0", VdevState::Online), leaf("nvme1", VdevState::Unavail)],
    );
    let root = node(
        "tank",
        VdevState::Degraded,
        vec![mirror(vec![leaf("sda", VdevState::Online)]), inner],
    );
    assert!(retry_needed(&snapshot(None, root)));
}

#[test]
fn degraded_interior_with_online_leaves_does_not_retry() {
    let root = node("tank", VdevState::Degraded, vec![leaf("sda", VdevState::Online)]);
    assert!(!retry_needed(&snapshot(None, root)));
}

#[test]
fn progress_guards_zero_denominator_to_none() {
    let s = scan(ScanState::Scanning, 0, 0, 0);
    assert_eq!(s.progress(), None);
}

#[test]
fn progress_is_ratio_in_unit_range() {
    let mut s = scan(ScanState::Scanning, 0, 1000, 500);
    assert_eq!(s.progress(), Some(num(0.5)));
    s.examined = 1500;
    assert_eq!(s.progress(), Some(num(1.0)));
}

#[test]
fn progress_override_wins_and_is_clamped() {
    let mut s = scan(ScanState::Scanning, 0, 1000, 500);
    s.progress_override = Some(num(0.25));
    assert_eq!(s.progress(), Some(num(0.25)));
    s.progress_override = Some(num(7.5));
    assert_eq!(s.progress(), Some(num(1.0)));
    s.progress_override = Some(num(-0.5));
    assert_eq!(s.progress(), Some(num(0.0)));
    s.to_examine = 0;
    s.progress_override = Some(num(0.75));
    assert_eq!(s.progress(), Some(num(0.75)));
}

#[test]
fn progress_is_never_not_a_number() {
    let mut s = scan(ScanState::Scanning, 0, 100, 50);
    s.progress_override = Some(num(f64::NAN));
    assert_eq!(s.progress(), None);
    s.progress_override = Some(num(f64::INFINITY));
    assert_eq!(s.progress(), Some(num(1.0)));
    s.progress_override = Some(num(f64::NEG_INFINITY));
    assert_eq!(s.progress(), Some(num(0.0)));
}

#[test]
fn progress_grows_from_nothing_to_the_whole() {
    let total = 12_345_678_901_234_567_u64;
    assert_eq!(scan(ScanState::Scanning, 0, total, 0).progress(), Some(num(0.0)));
    assert_eq!(scan(ScanState::Scanning, 0, total, total).progress(), Some(num(1.0)));
    assert_eq!(scan(ScanState::Scanning, 0, total, u64::MAX).progress(), Some(num(1.0)));
    let mut last = 0.0;
    for i in 0..100 {
        let p = scan(ScanState::Scanning, 0, total, total / 99 * i).progress().unwrap();
        assert!(last <= f64::from_bits(p.bits));
        last = f64::from_bits(p.bits);
    }
}

#[test]
fn progress_divides_like_the_hardware() {
    for (n, d) in [(1u64, 3u64), (54, 120), (u64::MAX - 5, u64::MAX), (7, 1 << 60), (12345, 99999)] {
        let s = scan(ScanState::Scanning, 0, d, n);
        let want = (n as f64 / d as f64).clamp(0.0, 1.0);
        assert_eq!(s.progress(), Some(num(want)));
    }
}

#[test]
fn finished_clean_with_degraded_leaf_still_true() {
    let snap = snapshot(
        Some(scan(ScanState::Finished, 0, 0, 0)),
        mirror(vec![leaf("sdz", VdevState::Degraded)]),
    );
    assert!(retry_needed(&snap));
}

#[test]
fn health_grades_each_vdev_state() {
    let grade = |state| {
        snapshot(
            Some(scan(ScanState::Idle, 0, 0, 0)),
            mirror(vec![leaf("sda", VdevState::Online), leaf("sdb", state)]),
        )
        .health()
    };
    assert_eq!(grade(VdevState::Online), PoolHealth::Healthy);
    assert_eq!(grade(VdevState::Offline), PoolHealth::Healthy);
    assert_eq!(grade(VdevState::Degraded), PoolHealth::Degraded);
    assert_eq!(grade(VdevState::Faulted), PoolHealth::Fault);
    assert_eq!(grade(VdevState::Removed), PoolHealth::Fault);
    assert_eq!(grade(VdevState::Unavail), PoolHealth::Fault);
}

#[test]
fn unavail_interior_with_faulted_leaves_grades_fault() {
    let snap = dead_pool(vec![leaf("d1", VdevState::Faulted), leaf("d2", VdevState::Faulted)]);
    assert_eq!(snap.health(), PoolHealth::Fault);
}

#[test]
fn health_worst_wins_across_nested_groups() {
    let mk_root = |worst_leaf: VdevInfo| {
        snapshot(
            None,
            node(
                "tank",
                VdevState::Online,
                vec![mirror(vec![leaf("sda", VdevState::Online)]), worst_leaf],
            ),
        )
    };
    assert_eq!(
        mk_root(mirror(vec![leaf("sdb", VdevState::Degraded)])).health(),
        PoolHealth::Degraded
    );
    assert_eq!(mk_root(mirror(vec![leaf("sdb", VdevState::Faulted)])).health(), PoolHealth::Fault);
}

#[test]
fn health_recovers_when_vdevs_return_online() {
    assert_eq!(sample(Scenario::Faulted, 0).health(), PoolHealth::Fault);
    assert_eq!(sample(Scenario::Done, 0).health(), PoolHealth::Healthy);
    assert_eq!(sample(Scenario::Scanning, 2).health(), PoolHealth::Healthy);
    assert_eq!(sample(Scenario::Errors, 6).health(), PoolHealth::Degraded);
}

#[test]
fn severities_rank_states() {
    assert_eq!(VdevState::Online.tab_severity(), 0);
    assert_eq!(VdevState::Offline.tab_severity(), 0);
    assert_eq!(VdevState::Degraded.tab_severity(), 1);
    assert_eq!(VdevState::Faulted.tab_severity(), 2);
    assert_eq!(VdevState::Removed.tab_severity(), 2);
    assert_eq!(VdevState::Unavail.tab_severity(), 2);
}

#[test]
fn worst_is_a_maximum() {
    let all = [PoolHealth::Healthy, PoolHealth::Degraded, PoolHealth::Fault];
    for (i, a) in all.iter().enumerate() {
        for (j, b) in all.iter().enumerate() {
            assert_eq!(a.worst(*b), all[i.max(j)]);
        }
    }
}

#[test]
fn faulted_nodes_are_found_at_any_depth() {
    let deep = node("a", VdevState::Online, vec![mirror(vec![leaf("b", VdevState::Faulted)])]);
    assert!(tree_has_faulted(&deep));
    assert!(!tree_has_faulted(&mirror(vec![leaf("b", VdevState::Unavail)])));
}

#[test]
fn times_before_the_epoch_are_kept() {
    assert_eq!(Timestamp::from_epoch(false, 7, 5), Timestamp { secs: 7, nanos: 5 });
    assert_eq!(Timestamp::from_epoch(true, 7, 0), Timestamp { secs: -7, nanos: 0 });
    assert_eq!(Timestamp::from_epoch(true, 7, 5), Timestamp { secs: -8, nanos: 999_999_995 });
    assert_eq!(Timestamp::from_epoch(true, 0, 1), Timestamp { secs: -1, nanos: 999_999_999 });
    assert_eq!(Timestamp::from_epoch(false, u64::MAX, 0), ts(u64::MAX));
}

#[test]
fn clones_are_equal() {
    let snap = sample(Scenario::Errors, 6);
    assert_eq!(snap.clone(), snap);
}
