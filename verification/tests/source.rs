use zresmon::app::startup::{
    child_step, poll_secs, preflight, refuses, ChildState, ChildStep, Preflight, STATUS_TIMEOUT_MS,
};
use zresmon::app::LiveSource;
use zresmon::binary64::Binary64;
use zresmon::collect::kstat::ScanFile;
use zresmon::model::{PoolSnapshot, ScanFunc, ScanState, Timestamp, VdevState};

fn num(x: f64) -> Binary64 {
    Binary64 { bits: x.to_bits() }
}

fn now() -> Timestamp {
    Timestamp { secs: 1726000100, nanos: 5 }
}

const KSTAT: &str = "name type data\nfunc 4 2\nstate 4 1\nstart_time 4 9\nto_examine 4 100\nexamined 4 40\nerrors 4 3\n";

const TREE: &str = "tank ONLINE 0 0 0\n  mirror-0 ONLINE 0 0 0\n    sda ONLINE 0 0 0\n    sdb ONLINE 0 0 0 (resilvering) 5% done\n    sdc ONLINE 0 0 0 (resilvering) 6% done\n";

fn collect(file: ScanFile, status: Result<&str, &str>) -> Result<PoolSnapshot, String> {
    let status = match status {
        Ok(s) => Ok(s.to_string()),
        Err(e) => Err(e.to_string()),
    };
    LiveSource::collect_one("tank", file, status, now())
}

fn text() -> ScanFile {
    ScanFile::Text(KSTAT.to_string())
}

#[test]
fn missing_sources_give_an_idle_pool() {
    let s = collect(ScanFile::Missing, Err("no zpool")).unwrap();
    assert_eq!(s.name, "tank");
    assert!(s.scan.is_none());
    assert_eq!(s.root.name, "tank");
    assert_eq!(s.root.state, VdevState::Online);
    assert!(s.root.children.is_empty());
    assert_eq!(s.sampled_at, now());
}

#[test]
fn unreadable_kstat_is_the_only_failure() {
    let e = collect(ScanFile::Unreadable("denied".to_string()), Ok(TREE)).unwrap_err();
    assert_eq!(e, "denied");
}

#[test]
fn status_replaces_the_topology() {
    let s = collect(text(), Ok(TREE)).unwrap();
    assert_eq!(s.root.children[0].children.len(), 3);
    assert_eq!(s.scan.unwrap().errors, 3);
    let t = collect(text(), Ok("nothing of use")).unwrap();
    assert_eq!(t.root.name, "");
    assert_eq!(t.scan.unwrap().examined, 40);
}

#[test]
fn percentage_goes_to_the_first_target() {
    let status = format!("scan: resilver 42.5% done\n{TREE}");
    let s = collect(text(), Ok(&status)).unwrap();
    let m = &s.root.children[0];
    assert_eq!(m.children[0].rebuild_pct, None);
    assert_eq!(m.children[1].rebuild_pct, Some(num(42.5)));
    assert!(m.children[1].is_rebuild_target);
    assert_eq!(m.children[2].rebuild_pct, Some(num(6.0)));
    let idle = collect(ScanFile::Missing, Ok(TREE)).unwrap();
    assert_eq!(idle.root.children[0].children[1].rebuild_pct, Some(num(5.0)));
}

#[test]
fn kstat_is_the_source_of_truth() {
    let s = collect(text(), Ok("scan: scrub in progress\n 9% done\n")).unwrap();
    let scan = s.scan.unwrap();
    assert_eq!(scan.func, ScanFunc::Resilver);
    assert_eq!(scan.examined, 40);
    assert_eq!(scan.progress_override, None);
}

#[test]
fn scan_line_stands_in_for_the_kstat() {
    let s = collect(ScanFile::Missing, Ok("scan: scrub in progress\n 9% done\n")).unwrap();
    let scan = s.scan.unwrap();
    assert_eq!(scan.func, ScanFunc::Scrub);
    assert_eq!(scan.state, ScanState::Scanning);
    assert_eq!(scan.progress_override, Some(num((9.0f64 / 100.0).clamp(0.0, 1.0))));
    assert_eq!((scan.to_examine, scan.examined), (0, 0));
    assert_eq!(scan.sampled_at, now());
    let line = "scan: resilvered 129M in 00:00:07 with 4 errors on X\n";
    let done = collect(ScanFile::Missing, Ok(line)).unwrap().scan.unwrap();
    assert_eq!(done.state, ScanState::Finished);
    assert_eq!((done.to_examine, done.examined), (129_000_000, 129_000_000));
    assert_eq!(done.errors, 4);
    assert_eq!(done.progress(), Some(num(1.0)));
    let over = collect(ScanFile::Missing, Ok("scan: scrub in progress 250% done\n")).unwrap();
    assert_eq!(over.scan.unwrap().progress(), Some(num(1.0)));
    let plain = collect(ScanFile::Missing, Ok("scan: scrub canceled\n")).unwrap().scan.unwrap();
    assert_eq!(plain.state, ScanState::Canceled);
    assert_eq!(plain.progress(), None);
}

#[test]
fn rebuild_wording_is_the_last_resort() {
    let done = "  resilvered (draid2-0-0) 2.00G in 0:00:05 with 3 errors on Thu\n";
    let scan = collect(ScanFile::Missing, Ok(done)).unwrap().scan.unwrap();
    assert_eq!(scan.func, ScanFunc::Resilver);
    assert_eq!(scan.state, ScanState::Finished);
    assert_eq!((scan.to_examine, scan.examined), (2_000_000_000, 2_000_000_000));
    assert_eq!(scan.errors, 3);
    assert_eq!(scan.progress_override, Some(num(1.0)));
    let active = "  resilver (draid2-0-0) in progress since Thu\n";
    let scan = collect(ScanFile::Missing, Ok(active)).unwrap().scan.unwrap();
    assert_eq!(scan.state, ScanState::Scanning);
    assert_eq!(scan.progress_override, None);
    let both = format!("scan: scrub in progress\n\n{done}");
    let scan = collect(ScanFile::Missing, Ok(&both)).unwrap().scan.unwrap();
    assert_eq!(scan.func, ScanFunc::Resilver);
    assert_eq!(scan.state, ScanState::Scanning);
    assert!(collect(ScanFile::Missing, Ok("all is quiet\n")).unwrap().scan.is_none());
}

#[test]
fn a_named_pool_pins_the_view() {
    let visible = vec!["a".to_string(), "b".to_string()];
    let all = LiveSource::new(None);
    assert_eq!(all.pools(visible.clone()), visible);
    assert_eq!(all.first_pool(visible.clone()), Ok("a".to_string()));
    assert_eq!(
        all.first_pool(Vec::new()),
        Err("no ZFS pools visible — is a pool imported?".to_string())
    );
    let one = LiveSource::new(Some("b".to_string()));
    assert_eq!(one.pools(visible.clone()), vec!["b".to_string()]);
    assert_eq!(one.first_pool(Vec::new()), Ok("b".to_string()));
}

#[test]
fn preflight_refuses_where_nothing_can_be_seen() {
    assert_eq!(preflight(false, &vec![true], true), Preflight::NoZfs);
    assert_eq!(preflight(true, &vec![], false), Preflight::NoPools);
    assert_eq!(preflight(true, &vec![false, false], false), Preflight::NoScansYet);
    assert_eq!(preflight(true, &vec![false, false], true), Preflight::Ready);
    assert_eq!(preflight(true, &vec![false, true], false), Preflight::Ready);
    assert!(refuses(Preflight::NoZfs) && refuses(Preflight::NoPools));
    assert!(!refuses(Preflight::NoScansYet) && !refuses(Preflight::Ready));
    assert_eq!(poll_secs(0), 1);
    assert_eq!(poll_secs(7), 7);
}

#[test]
fn waiting_for_a_child_ends() {
    let s = |t: &str| t.to_string();
    assert_eq!(child_step(ChildState::Running, 0), ChildStep::Wait);
    assert_eq!(child_step(ChildState::Running, STATUS_TIMEOUT_MS - 1), ChildStep::Wait);
    assert_eq!(
        child_step(ChildState::Running, STATUS_TIMEOUT_MS),
        ChildStep::Kill(s("zpool timed out"))
    );
    assert_eq!(child_step(ChildState::Succeeded, 9_999), ChildStep::Take);
    assert_eq!(
        child_step(ChildState::Failed(s("exit status: 1")), 0),
        ChildStep::GiveUp(s("zpool exited with exit status: 1"))
    );
    assert_eq!(
        child_step(ChildState::NotStarted(s("x")), 0),
        ChildStep::GiveUp(s("zpool spawn failed: x"))
    );
    assert_eq!(
        child_step(ChildState::Unknown(s("y")), 0),
        ChildStep::GiveUp(s("wait failed: y"))
    );
}
