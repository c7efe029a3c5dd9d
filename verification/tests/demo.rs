use zresmon::app::DemoSource;
use zresmon::binary64::Binary64;
use zresmon::demo::{ereports, sample, Scenario};
use zresmon::model::{retry_needed, ErrKind, ScanState, Timestamp, VdevState};

#[test]
fn scanning_progresses_and_converges() {
    for tick in 0..=10u64 {
        let s = sample(Scenario::Scanning, tick);
        let scan = s.scan.as_ref().unwrap();
        assert_eq!(scan.examined, scan.to_examine.min(tick * 10 * 1024 * 1024));
        assert!(!retry_needed(&s), "scanning w/o errors must not demand retry");
    }
    let done = sample(Scenario::Scanning, 10);
    assert_eq!(done.scan.unwrap().state, ScanState::Finished);
}

#[test]
fn scanning_divides_like_the_hardware() {
    for tick in 0..=12u64 {
        let frac = f64::min(tick as f64 / 10.0, 1.0);
        let s = sample(Scenario::Scanning, tick);
        assert_eq!(s.scan.unwrap().examined, ((100 * 1024 * 1024) as f64 * frac) as u64);
        let pct = s.root.children[0].children[1].rebuild_pct;
        assert_eq!(pct, Some(Binary64 { bits: (frac * 100.0).to_bits() }));
    }
}

#[test]
fn errors_scenario_marks_retry_until_finished() {
    let mid = sample(Scenario::Errors, 6);
    assert!(mid.scan.as_ref().unwrap().errors > 0);
    assert!(retry_needed(&mid));
    let fin = sample(Scenario::Errors, 12);
    assert_eq!(fin.scan.as_ref().unwrap().state, ScanState::Finished);
    assert!(!retry_needed(&fin));
    assert!(!ereports(Scenario::Errors, 6).is_empty());
}

#[test]
fn fault_scenario_needs_escalation_not_retry() {
    let s = sample(Scenario::Faulted, 0);
    assert!(s.scan.is_none());
    assert!(!retry_needed(&s));
    assert_eq!(s.root.children[0].children[1].state, VdevState::Faulted);
    let faulted = &s.root.children[0].children[1];
    assert_eq!(faulted.name, "/dev/sdb");
    assert_eq!(faulted.checksum_err, 4_500);
}

#[test]
fn done_is_clean() {
    let s = sample(Scenario::Done, 0);
    assert!(!retry_needed(&s));
}

#[test]
fn scenario_names_are_known() {
    assert_eq!(Scenario::parse("scanning"), Some(Scenario::Scanning));
    assert_eq!(Scenario::parse("done"), Some(Scenario::Done));
    assert_eq!(Scenario::parse("errors"), Some(Scenario::Errors));
    assert_eq!(Scenario::parse("fault"), Some(Scenario::Faulted));
    assert_eq!(Scenario::parse("Fault"), None);
    assert_eq!(Scenario::parse(""), None);
}

#[test]
fn error_counts_grow_with_the_tick() {
    let s = sample(Scenario::Errors, 6);
    assert_eq!(s.scan.unwrap().errors, 28);
    assert_eq!(s.root.children[0].children[1].checksum_err, 20);
    assert_eq!(s.sampled_at, Timestamp::from_secs(1_760_000_012));
    assert_eq!(sample(Scenario::Errors, 2).scan.unwrap().errors, 0);
}

#[test]
fn ereports_spread_over_the_device() {
    assert!(ereports(Scenario::Errors, 2).is_empty());
    assert!(ereports(Scenario::Scanning, 9).is_empty());
    let es = ereports(Scenario::Errors, 6);
    assert_eq!(es.len(), 4);
    assert_eq!(es[3].io_offset, 3 * 4 * 1024 * 1024 * 1024);
    assert_eq!(es[0].kind, ErrKind::IoRead);
    assert_eq!(es[1].kind, ErrKind::Checksum);
    assert_eq!(es[3].kind, ErrKind::IoRead);
    assert_eq!(es[0].vdev_guid, 0x0BADC0DE_00000001);
    assert_eq!(es[0].io_size, 128 * 1024);
}

#[test]
fn demo_source_replays_tick_by_tick() {
    let mut src = DemoSource::new(Scenario::Errors);
    assert!(src.ereports().is_empty());
    assert_eq!(src.sample(), sample(Scenario::Errors, 0));
    assert_eq!(src.pools(), vec!["tank".to_string()]);
    assert_eq!(src.sample_pool("other"), sample(Scenario::Errors, 2));
    for _ in 0..20 {
        src.sample();
    }
    assert_eq!(src.sample(), sample(Scenario::Errors, 10));
    assert_eq!(src.ereports().len(), 21);
}
