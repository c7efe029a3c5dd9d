use zresmon::collect::kstat::{list_pools, parse_scan_kstat, read_scan, KstatEntry, ScanFile};
use zresmon::model::{ScanFunc, ScanState, Timestamp, VdevState};

const ACTIVE_RESILVER: &str = "\
33 34 scan
name type data

func 4 2
state 4 1
start_time 4 1726000000
end_time 4 0
to_examine 4 1000000
examined 4 400000
processed 4 350000
skipped 4 5000
errors 4 3
issued 4 380000
pass_exam 4 120000
";

const FINISHED_SCRUB: &str = "\
33 34 scan
name type data

func 4 1
state 4 2
start_time 4 1726000000
end_time 4 1726010000
to_examine 4 2000000
examined 4 2000000
processed 4 1900000
skipped 4 0
errors 4 0
issued 4 0
pass_exam 4 0
";

fn now() -> Timestamp {
    Timestamp::from_secs(1726000100)
}

#[test]
fn parses_active_resilver() {
    let snap = parse_scan_kstat("tank", ACTIVE_RESILVER, now()).expect("snapshot");
    let scan = snap.scan.expect("scan present");
    assert_eq!(scan.func, ScanFunc::Resilver);
    assert_eq!(scan.state, ScanState::Scanning);
    assert_eq!(scan.errors, 3);
    assert_eq!(scan.examined, 400_000);
    assert_eq!(scan.start_time, Some(Timestamp::from_secs(1_726_000_000)));
    assert!(scan.end_time.is_none());
    assert_eq!(snap.name, "tank");
    assert_eq!(scan.to_examine, 1_000_000);
    assert_eq!(scan.processed, 350_000);
    assert_eq!(scan.skipped, 5_000);
    assert_eq!(scan.issued, 380_000);
    assert_eq!(scan.pass_exam, 120_000);
    assert_eq!(scan.sampled_at, now());
    assert_eq!(snap.sampled_at, now());
    assert_eq!(snap.root.name, "");
    assert_eq!(snap.root.state, VdevState::Online);
}

#[test]
fn parses_finished_scrub() {
    let snap = parse_scan_kstat("tank", FINISHED_SCRUB, now()).expect("snapshot");
    let scan = snap.scan.unwrap();
    assert_eq!(scan.func, ScanFunc::Scrub);
    assert_eq!(scan.state, ScanState::Finished);
    assert_eq!(scan.errors, 0);
    assert_eq!(scan.end_time, Some(Timestamp::from_secs(1_726_010_000)));
}

#[test]
fn all_zero_row_means_never_scanned() {
    let raw = "33 34 scan\nname type data\n\nfunc 4 0\nstate 4 0\nstart_time 4 0\nend_time 4 0\nto_examine 4 0\nexamined 4 0\n";
    assert!(parse_scan_kstat("tank", raw, now()).is_none());
}

#[test]
fn unknown_fields_are_skipped() {
    let raw = "name type data\n\nnewfield 4 99999\nfunc 4 2\nstate 4 1\nto_examine 4 10\nexamined 4 5\nstart_time 4 1726000000\n";
    let snap = parse_scan_kstat("p", raw, now()).unwrap();
    assert_eq!(snap.scan.unwrap().examined, 5);
}

#[test]
fn fields_may_come_in_any_order_and_the_last_wins() {
    let raw = "name type data\nstart_time 4 9\nexamined 4 1\nstate 4 3\nexamined 4 2\nfunc 4 1\n";
    let scan = parse_scan_kstat("p", raw, now()).unwrap().scan.unwrap();
    assert_eq!(scan.func, ScanFunc::Scrub);
    assert_eq!(scan.state, ScanState::Canceled);
    assert_eq!(scan.examined, 2);
}

#[test]
fn incomplete_records_are_no_record() {
    let with = |body: &str| parse_scan_kstat("p", &format!("name type data\n{body}"), now());
    assert!(with("").is_none());
    assert!(with("func 4 2\nstart_time 4 9\n").is_none());
    assert!(with("state 4 1\nstart_time 4 9\n").is_none());
    assert!(with("func 4 x\nstate 4 1\nstart_time 4 9\n").is_none());
    assert!(with("func 4 0\nstate 4 1\nstart_time 4 9\n").is_none());
    assert!(with("func 4 3\nstate 4 1\nstart_time 4 9\n").is_none());
    assert!(with("func 4 2\nstate 4 1\nstart_time 4 0\nend_time 4 0\n").is_none());
    assert!(parse_scan_kstat("p", "func 4 2\nstate 4 1\nstart_time 4 9\n", now()).is_none());
    let odd = with("func 4 2\nstate 4 9\nend_time 4 5\nerrors 4 many\n").unwrap().scan.unwrap();
    assert_eq!(odd.state, ScanState::Idle);
    assert_eq!(odd.start_time, None);
    assert_eq!(odd.end_time, Some(Timestamp::from_secs(5)));
    assert_eq!(odd.errors, 0);
}

fn entry(name: &str, is_dir: bool, has_guid: bool) -> KstatEntry {
    KstatEntry { name: name.to_string(), is_dir, has_guid }
}

#[test]
fn pools_without_scan_history_are_still_listed() {
    let entries = vec![
        entry("poolB", true, true),
        entry("arcstats", false, false),
        entry("poolA", true, true),
    ];
    let pools = list_pools(&entries);
    assert_eq!(pools, vec!["poolA".to_string(), "poolB".to_string()]);
    let r = read_scan("poolA", ScanFile::Missing, now()).unwrap();
    assert!(r.is_none());
}

#[test]
fn listing_sorts_as_strings_do() {
    let names = ["zeta", "Ärger", "alpha", "beta10", "beta2", "beta", "Zed", "漢字", "alpha"];
    let entries: Vec<KstatEntry> = names.iter().map(|n| entry(n, true, true)).collect();
    let mut want: Vec<String> = names.iter().map(|n| n.to_string()).collect();
    want.sort();
    assert_eq!(list_pools(&entries), want);
    assert_eq!(list_pools(&vec![entry("x", true, false), entry("y", false, true)]).len(), 0);
}

#[test]
fn missing_file_is_none_not_error() {
    let r = read_scan("tank", ScanFile::Missing, now()).unwrap();
    assert!(r.is_none());
}

#[test]
fn unreadable_file_is_an_error() {
    let r = read_scan("tank", ScanFile::Unreadable("permission denied".to_string()), now());
    assert_eq!(r.unwrap_err(), "permission denied");
    let t = read_scan("tank", ScanFile::Text(ACTIVE_RESILVER.to_string()), now()).unwrap();
    assert_eq!(t.unwrap().scan.unwrap().errors, 3);
}
