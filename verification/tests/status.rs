use zresmon::binary64::Binary64;
use zresmon::collect::status::{
    extract_progress_pct, parse_scan_section, parse_status, probe_rebuild,
};
use zresmon::model::{ScanFunc, ScanState, VdevState};

fn num(x: f64) -> Binary64 {
    Binary64 { bits: x.to_bits() }
}

const SAMPLE: &str = "\
  pool: tank
 state: DEGRADED
status: One or more devices ...

  scan: resilver in progress since Tue Aug 23 10:00:00 2026
\t37.5% done

config:

NAME                          STATE     READ WRITE CKSUM
tank                          DEGRADED     0     0     0
  mirror-0                    DEGRADED     0     0     0
    sda                       ONLINE       0     0     0
    sdb                       FAULTED      4     1    12  too many errors

errors: Permanent errors have been detected in the following files:
        /tank/data/big.db
";

#[test]
fn parses_humanized_counters() {
    let raw = [
        "pool: p\n",
        "\nNAME STATE READ WRITE CKSUM\n",
        "p ONLINE 0 0 0\n",
        "  mirror-0 ONLINE 0 0 0\n",
        "    /var/tmp/zresmon-lab/zrm0-spare1.img ONLINE 0 0 8.18K\n",
        "    /var/tmp/zresmon-lab/zrm0-v2.img ONLINE 1.2M 0 0\n",
    ]
    .concat();
    let (_, root, _, _) = parse_status(&raw);
    let r = root.expect("root tree");
    let mirror = &r.children[0];
    let spare1 = &mirror.children[0];
    assert_eq!(spare1.name, "/var/tmp/zresmon-lab/zrm0-spare1.img");
    assert_eq!(spare1.checksum_err, 8_376);
    assert_eq!(spare1.read_err, 0);
    let v2 = &mirror.children[1];
    assert_eq!(v2.read_err, 1_258_291);
    assert_eq!(v2.checksum_err, 0);
}

#[test]
fn parses_topology_and_states() {
    let (_, root, pct, errs) = parse_status(SAMPLE);
    let r = root.expect("root tree");
    assert_eq!(r.name, "tank");
    assert_eq!(r.state, VdevState::Degraded);
    assert_eq!(r.children.len(), 1);
    let mirror = &r.children[0];
    assert_eq!(mirror.name, "mirror-0");
    assert_eq!(mirror.children.len(), 2);
    assert_eq!(mirror.children[0].name, "sda");
    assert_eq!(mirror.children[0].state, VdevState::Online);
    assert_eq!(mirror.children[1].state, VdevState::Faulted);
    assert_eq!(mirror.children[1].read_err, 4);
    assert_eq!(mirror.children[1].checksum_err, 12);
    assert_eq!(pct, Some(num(37.5)));
    assert!(errs.iter().any(|l| l.contains("big.db")));
}

#[test]
fn extracts_progress_variants() {
    assert_eq!(extract_progress_pct("scan: resilver 12.5% done"), Some(num(12.5)));
    assert_eq!(extract_progress_pct("(45% done)"), Some(num(45.0)));
    assert_eq!(extract_progress_pct("no numbers here"), None);
}

#[test]
fn rebuild_probe_detects_all_states() {
    let raw = "  resilver (draid2-0-0) in progress since Thu Aug 27\n";
    let p = probe_rebuild(raw).unwrap();
    assert_eq!(p.state, ScanState::Scanning);
    let raw2 = "  resilvered (draid2-0-0) 2.00G in 0:00:05 with 0 errors on Thu\n";
    let p2 = probe_rebuild(raw2).unwrap();
    assert_eq!(p2.state, ScanState::Finished);
    assert_eq!(p2.bytes, Some(2_000_000_000));
    assert_eq!(p2.errors, Some(0));
    let raw3 = "  resilver (draid2-0-0) canceled on Thu Aug 27\n";
    let p3 = probe_rebuild(raw3).unwrap();
    assert_eq!(p3.state, ScanState::Canceled);
    assert!(probe_rebuild("  scan: resilver in progress\n").is_none());
}

#[test]
fn rebuild_probe_active_wins_over_canceled() {
    let raw = "  resilver (v-0) canceled on Thu\n  resilver (v-1) in progress since Thu\n";
    let p = probe_rebuild(raw).unwrap();
    assert_eq!(p.state, ScanState::Scanning);
}

#[test]
fn rebuild_probe_active_wins_over_complete() {
    let done = "  resilvered (v-0) 2.00G in 0:00:05 with 3 errors on Thu\n";
    let active = "  resilver (v-1) in progress since Thu\n";
    for raw in [format!("{done}{active}"), format!("{active}{done}")] {
        let p = probe_rebuild(&raw).unwrap();
        assert_eq!(p.state, ScanState::Scanning);
        assert_eq!(p.bytes, None);
        assert_eq!(p.errors, None);
    }
}

#[test]
fn rebuild_probe_complete_wins_over_canceled() {
    let done = "  resilvered (v-0) 1.5M in 0:00:05 with 12 errors on Thu\n";
    let other = "  resilvered (v-2) 9K in 0:00:01 with 1 errors on Thu\n";
    let canceled = "  resilver (v-1) canceled on Thu\n";
    for raw in [format!("{done}{canceled}{other}"), format!("{canceled}{done}{other}")] {
        let p = probe_rebuild(&raw).unwrap();
        assert_eq!(p.state, ScanState::Finished);
        assert_eq!(p.bytes, Some(1_500_000));
        assert_eq!(p.errors, Some(12));
    }
}

#[test]
fn scan_section_parsing_covers_states() {
    let raw =
        "  scan: resilver in progress since Tue Aug 23 10:00:00 2026\n\t37.5% done\nconfig:\n";
    let sl = parse_scan_section(raw).unwrap();
    assert_eq!(sl.func, ScanFunc::Resilver);
    assert_eq!(sl.state, ScanState::Scanning);
    assert_eq!(sl.pct, Some(num(37.5)));
    let raw2 = "  scan: resilvered 2.00G in 00:00:07 with 0 errors on X\n";
    let sl2 = parse_scan_section(raw2).unwrap();
    assert_eq!(sl2.state, ScanState::Finished);
    assert_eq!(sl2.pct, None);
    assert_eq!(sl2.bytes, Some(2_000_000_000));
    let raw3 = "  scan: scrub in progress since X\n";
    let sl3 = parse_scan_section(raw3).unwrap();
    assert_eq!(sl3.func, ScanFunc::Scrub);
    assert_eq!(sl3.state, ScanState::Scanning);
    assert!(parse_scan_section("  pool: t\nconfig:\n").is_none());
}

#[test]
fn finished_scan_line_carries_its_errors() {
    let done = parse_scan_section("  scan: resilvered 129M in 00:00:07 with 17 errors on X\n");
    let done = done.unwrap();
    assert_eq!(done.errors, Some(17));
    assert_eq!(done.bytes, Some(129_000_000));
    let scrub = parse_scan_section("  scan: scrub repaired 128K in 00:01:00 with 0 errors on X\n");
    let scrub = scrub.unwrap();
    assert_eq!(scrub.func, ScanFunc::Scrub);
    assert_eq!(scrub.errors, Some(0));
    assert_eq!(scrub.bytes, Some(128_000));
    let running = parse_scan_section("  scan: scrub in progress with 3 errors\n").unwrap();
    assert_eq!(running.errors, None);
}

#[test]
fn scan_section_ends_at_an_unindented_line() {
    let raw = "scan: scrub in progress\n  12.5% done\nconfig: 99% done\n";
    assert_eq!(parse_scan_section(raw).unwrap().pct, Some(num(12.5)));
    let canceled = parse_scan_section("scan: resilver canceled on X\n").unwrap();
    assert_eq!(canceled.state, ScanState::Canceled);
    assert_eq!(canceled.bytes, None);
    assert!(parse_scan_section("scan: none requested\n").is_none());
}

#[test]
fn scan_sizes_follow_decimal_units() {
    let size = |s: &str| parse_scan_section(&format!("scan: resilvered {s} in X\n")).unwrap().bytes;
    assert_eq!(size("512"), Some(512));
    assert_eq!(size("6.00G"), Some(6_000_000_000));
    assert_eq!(size("1.5T"), Some(1_500_000_000_000));
    assert_eq!(size("2.5k"), Some(2_500));
    assert_eq!(size("junk"), None);
    let last = |s: &str| parse_scan_section(&format!("scan: resilvered {s}\n")).unwrap().bytes;
    assert_eq!(last("512"), Some(512));
    assert_eq!(last("512  "), Some(512));
    assert_eq!(last("1.5K"), Some(1_500));
    assert_eq!(last(""), None);
    assert_eq!(probe_rebuild("resilvered (v-0) 512\n").unwrap().bytes, Some(512));
    assert_eq!(parse_scan_section("scan: SCANNED 4K resilver\n").unwrap().bytes, Some(4_000));
}

#[test]
fn no_errors_section_is_clean() {
    let raw = "pool: p\n\nNAME STATE READ WRITE CKSUM\np ONLINE 0 0 0\n\nerrors: No known data errors\n";
    let (_, _, _, errs) = parse_status(raw);
    assert!(errs.is_empty());
}

#[test]
fn annotations_do_not_hide_counters() {
    let raw = "p ONLINE 0 0 0\n  sda FAULTED 3 2 1 was /dev/sdb1 cannot open\n  sdb ONLINE 7 8\n";
    let (name, root, _, _) = parse_status(raw);
    assert_eq!(name, "p");
    let r = root.unwrap();
    let a = &r.children[0];
    assert_eq!((a.read_err, a.write_err, a.checksum_err), (3, 2, 1));
    let b = &r.children[1];
    assert_eq!((b.read_err, b.write_err, b.checksum_err), (0, 0, 0));
}

#[test]
fn row_progress_marks_the_rebuild_target() {
    let raw = "p ONLINE 0 0 0\n  sda ONLINE 0 0 0 (resilvering) 12.25% done\n";
    let (_, root, pct, _) = parse_status(raw);
    let r = root.unwrap();
    assert!(!r.is_rebuild_target);
    assert!(r.children[0].is_rebuild_target);
    assert_eq!(r.children[0].rebuild_pct, Some(num(12.25)));
    assert_eq!(pct, Some(num(12.25)));
}

#[test]
fn tree_follows_indentation() {
    let raw = "p ONLINE 0 0 0\n    a ONLINE 0 0 0\n      a1 ONLINE 0 0 0\n  b ONLINE 0 0 0\n    b1 ONLINE 0 0 0\n    b2 ONLINE 0 0 0\nc ONLINE 0 0 0\n";
    let (_, root, _, _) = parse_status(raw);
    let r = root.unwrap();
    let names: Vec<&str> = r.children.iter().map(|v| v.name.as_str()).collect();
    assert_eq!(names, vec!["a", "b", "c"]);
    assert_eq!(r.children[0].children[0].name, "a1");
    assert_eq!(r.children[1].children.len(), 2);
    assert!(r.children[2].children.is_empty());
}

#[test]
fn names_may_have_several_words() {
    let (name, root, _, _) = parse_status("my pool DEGRADED 1 2 3\n");
    assert_eq!(name, "my pool");
    assert_eq!(root.unwrap().name, "my pool");
}

#[test]
fn unrecognized_text_gives_nothing() {
    let (name, root, pct, errs) = parse_status("hello\nONLINE\n  lone\n\n");
    assert_eq!(name, "");
    assert!(root.is_none());
    assert_eq!(pct, None);
    assert!(errs.is_empty());
}

#[test]
fn every_state_word_is_known() {
    let raw = "p ONLINE 0 0 0\n a DEGRADED 0 0 0\n b FAULTED 0 0 0\n c OFFLINE 0 0 0\n d REMOVED 0 0 0\n e UNAVAIL 0 0 0\n f online 0 0 0\n";
    let (_, root, _, _) = parse_status(raw);
    let states: Vec<VdevState> = root.unwrap().children.iter().map(|v| v.state).collect();
    assert_eq!(
        states,
        vec![
            VdevState::Degraded,
            VdevState::Faulted,
            VdevState::Offline,
            VdevState::Removed,
            VdevState::Unavail
        ]
    );
}
