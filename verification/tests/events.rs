use zresmon::collect::events::{EventBlockParser, EventBuffer, BUFFER_CAP};
use zresmon::model::{Ereport, ErrKind, Timestamp};

const FIXTURE: &str = "time         2026-08-23.10:00:01
class        ereport.io.fs.zfs.checksum
ena          0x0001
pool         tank
vdev_path    /dev/sdb
vdev_guid    0x0badc0de00000001
io_offset    0x123400000
io_size      0x20000

time         2026-08-23.10:00:05
class        ereport.io.fs.zfs.probe_failure
pool         tank

time         2026-08-23.10:00:09
class        ereport.io.fs.zfs.io
vdev_path    /dev/sdb
vdev_guid    0x0badc0de00000001
io_offset    4096
io_size      8192
";

const FIXTURE_229: &str = r#"Aug 27 2026 14:43:05.650012575 ereport.fs.zfs.io
        class = "ereport.fs.zfs.io"
        ena = 0x614e37ddc1501801
        pool = "zrm0"
        vdev_guid = 0x42df3372e6b2c4c9
        vdev_path = "/var/tmp/zresmon-lab/zrm0-v1.img"
        zio_offset = 0x48126600
        zio_size = 0x20000
        zio_err = 5
"#;

fn feed(text: &str) -> Vec<Ereport> {
    let mut p = EventBlockParser::new();
    let mut out = Vec::new();
    for line in text.lines() {
        if let Some(e) = p.feed_line_at(line, Timestamp::from_secs(7)) {
            out.push(e);
        }
    }
    if let Some(e) = p.feed_line_at("", Timestamp::from_secs(7)) {
        out.push(e);
    }
    out
}

#[test]
fn parses_checksum_and_skips_uninteresting() {
    let mut p = EventBlockParser::new();
    let mut out = Vec::new();
    for line in FIXTURE.lines() {
        if let Some(e) = p.feed_line(line) {
            out.push(e);
        }
    }
    if let Some(e) = p.feed_line("") {
        out.push(e);
    }
    assert_eq!(out.len(), 2);
    assert_eq!(out[0].kind, ErrKind::Checksum);
    assert_eq!(out[0].vdev_path, "/dev/sdb");
    assert_eq!(out[0].io_offset, 0x1234_00000);
    assert_eq!(out[1].kind, ErrKind::IoRead);
    assert_eq!(out[1].io_offset, 4096);
}

#[test]
fn parses_229_equals_sign_and_zio_prefix() {
    let mut p = EventBlockParser::new();
    let mut out = Vec::new();
    for line in FIXTURE_229.lines() {
        if let Some(e) = p.feed_line(line) {
            out.push(e);
        }
    }
    if let Some(e) = p.feed_line("") {
        out.push(e);
    }
    assert_eq!(out.len(), 1);
    let e = &out[0];
    assert_eq!(e.kind, ErrKind::IoRead);
    assert_eq!(e.vdev_path, "/var/tmp/zresmon-lab/zrm0-v1.img");
    assert_eq!(e.vdev_guid, 0x42df3372e6b2c4c9);
    assert_eq!(e.io_offset, 0x48126600);
    assert_eq!(e.io_size, 0x20000);
}

#[test]
fn events_carry_the_present_time() {
    let before = std::time::SystemTime::now()
        .duration_since(std::time::UNIX_EPOCH)
        .unwrap()
        .as_secs();
    let mut p = EventBlockParser::new();
    assert!(p.feed_line("class ereport.fs.zfs.checksum").is_none());
    let e = p.feed_line("").unwrap();
    let after = std::time::SystemTime::now()
        .duration_since(std::time::UNIX_EPOCH)
        .unwrap()
        .as_secs();
    assert!(before as i128 <= e.ts.secs && e.ts.secs <= after as i128);
    assert!(e.ts.nanos < 1_000_000_000);
}

#[test]
fn stream_of_a_follower_gives_one_report() {
    let out = feed("class  ereport.io.fs.zfs.checksum\nvdev_path /dev/sdb\n\n");
    assert_eq!(out.len(), 1);
    assert_eq!(out[0].kind, ErrKind::Checksum);
    assert_eq!(out[0].vdev_path, "/dev/sdb");
    assert_eq!(out[0].ts, Timestamp::from_secs(7));
}

#[test]
fn rows_are_read_in_every_spelling() {
    for row in ["io_offset 0x10", "io_offset = 0x10", "zio_offset= 16", "offset =16", "zio_offset 16"] {
        let out = feed(&format!("class = \"a.zfs.io\"\n{row}\nzio_size = 0x20\n"));
        assert_eq!(out[0].io_offset, 16, "{row}");
        assert_eq!(out[0].io_size, 32);
    }
    let out = feed("class a.checksum\nvdev_guid 0xzz\nio_offset -1\nio_size +5\n");
    assert_eq!((out[0].vdev_guid, out[0].io_offset, out[0].io_size), (0, 0, 5));
}

#[test]
fn only_two_families_are_kept() {
    assert_eq!(feed("class ereport.fs.zfs.checksum\n").len(), 1);
    assert_eq!(feed("class ereport.io.fs.zfs.io\n").len(), 1);
    assert_eq!(feed("class ereport.fs.zfs.probe_failure\n").len(), 0);
    assert_eq!(feed("class sysevent.fs.zfs.scrub_start\n").len(), 0);
    assert_eq!(feed("class ereport.other.io\n").len(), 0);
    assert_eq!(feed("vdev_path /dev/sda\n").len(), 0);
}

#[test]
fn a_reported_block_leaves_nothing_behind() {
    let out = feed("class a.checksum\nvdev_path /dev/sda\nio_offset 7\n\nclass a.checksum\n");
    assert_eq!(out.len(), 2);
    assert_eq!(out[0].vdev_path, "/dev/sda");
    assert_eq!(out[1].vdev_path, "");
    assert_eq!(out[1].io_offset, 0);
}

#[test]
fn a_dropped_block_leaves_nothing_behind() {
    let rows = "vdev_path /dev/sda\nvdev_guid 3\nio_offset 4096\nio_size 9\n";
    for class in ["class ereport.fs.zfs.probe_failure\n", ""] {
        let out = feed(&format!("{class}{rows}\nclass ereport.fs.zfs.checksum\n"));
        assert_eq!(out.len(), 1);
        assert_eq!(out[0].kind, ErrKind::Checksum);
        assert_eq!(out[0].vdev_path, "");
        assert_eq!((out[0].vdev_guid, out[0].io_offset, out[0].io_size), (0, 0, 0));
    }
}

fn ereport(n: u64) -> Ereport {
    Ereport {
        vdev_path: "/dev/sdb".to_string(),
        vdev_guid: 1,
        io_offset: n,
        io_size: 4096,
        kind: ErrKind::Checksum,
        ts: Timestamp::from_secs(n),
    }
}

#[test]
fn buffer_keeps_the_latest() {
    let mut b = EventBuffer::new();
    assert!(b.drain().is_empty());
    for n in 0..3 {
        b.push(ereport(n));
    }
    let got: Vec<u64> = b.drain().iter().map(|e| e.io_offset).collect();
    assert_eq!(got, vec![0, 1, 2]);
    assert!(b.drain().is_empty());
    for n in 0..150 {
        b.push(ereport(n));
    }
    let got: Vec<u64> = b.drain().iter().map(|e| e.io_offset).collect();
    assert_eq!(got.len(), BUFFER_CAP);
    assert_eq!(got, (50..150).collect::<Vec<u64>>());
}
