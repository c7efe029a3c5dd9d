use zresmon::app::session::{
    health_grades, names_of, scanning_flags, ERROR_CAP, ERROR_WINDOW_SECS,
};
use zresmon::app::{Key, Session};
use zresmon::demo::{sample, Scenario};
use zresmon::model::{Ereport, ErrKind, PoolHealth, PoolSnapshot, Timestamp};

fn strings(names: &[&str]) -> Vec<String> {
    names.iter().map(|n| n.to_string()).collect()
}

fn at(secs: u64, nanos: u32) -> Ereport {
    Ereport {
        vdev_path: "/dev/sdb".to_string(),
        vdev_guid: 1,
        io_offset: secs,
        io_size: 1,
        kind: ErrKind::Checksum,
        ts: Timestamp { secs: secs as i128, nanos },
    }
}

fn offsets(s: &Session) -> Vec<u64> {
    s.ereports.iter().map(|e| e.io_offset).collect()
}

#[test]
fn selection_follows_the_pool_name() {
    let mut s = Session::new();
    s.discover(strings(&["a", "b", "c"]));
    assert_eq!(s.active, 0);
    s.active = 2;
    s.discover(strings(&["c", "d", "a"]));
    assert_eq!(s.active, 0);
    assert_eq!(s.pools, strings(&["c", "d", "a"]));
    s.active = 1;
    s.discover(strings(&["b", "c", "d"]));
    assert_eq!(s.active, 2);
    s.discover(strings(&["b", "c", "d"]));
    assert_eq!(s.active, 2);
    s.discover(strings(&["x", "y"]));
    assert_eq!(s.active, 0);
}

#[test]
fn tabs_wrap_around() {
    let mut s = Session::new();
    assert!(!s.press(Key::Left, 3));
    assert_eq!(s.active, 2);
    assert!(!s.press(Key::Right, 3));
    assert_eq!(s.active, 0);
    s.press(Key::Tab, 3);
    assert_eq!(s.active, 1);
    s.press(Key::BackTab, 3);
    assert_eq!(s.active, 0);
    s.press(Key::Left, 0);
    assert_eq!(s.active, 0);
    s.press(Key::Right, 0);
    assert_eq!(s.active, 0);
}

#[test]
fn digits_jump_to_pools_in_range() {
    let mut s = Session::new();
    s.press(Key::Char('3'), 3);
    assert_eq!(s.active, 2);
    s.press(Key::Char('4'), 3);
    assert_eq!(s.active, 2);
    s.press(Key::Char('0'), 300);
    assert_eq!(s.active, 2);
    s.press(Key::Char('9'), 9);
    assert_eq!(s.active, 8);
    s.press(Key::Char('1'), 9);
    assert_eq!(s.active, 0);
}

#[test]
fn keys_quit_by_position() {
    let mut s = Session::new();
    for key in [Key::Char('q'), Key::Char('ㅂ'), Key::Char('ㅃ'), Key::Esc] {
        assert!(s.press(key, 1));
    }
    for key in [Key::Char('x'), Key::Char('Q'), Key::Other, Key::Up, Key::Tab] {
        assert!(!s.press(key, 1));
    }
}

#[test]
fn arrows_scroll_the_focused_panel() {
    let mut s = Session::new();
    s.press(Key::Down, 1);
    s.press(Key::Down, 1);
    s.press(Key::Up, 1);
    assert_eq!((s.tree_scroll, s.map_scroll, s.panel_focus), (1, 0, 0));
    s.press(Key::Char('ㅣ'), 1);
    s.press(Key::Up, 1);
    s.press(Key::Down, 1);
    assert_eq!((s.tree_scroll, s.map_scroll, s.panel_focus), (1, 1, 1));
    s.press(Key::Char('ㅗ'), 1);
    s.press(Key::Up, 1);
    s.press(Key::Up, 1);
    assert_eq!((s.tree_scroll, s.map_scroll, s.panel_focus), (0, 1, 0));
    s.press(Key::Char('l'), 1);
    assert_eq!(s.panel_focus, 1);
    s.press(Key::Char('h'), 1);
    assert_eq!(s.panel_focus, 0);
}

#[test]
fn events_leave_the_window() {
    let mut s = Session::new();
    let now = Timestamp { secs: 1000, nanos: 500 };
    let edge = 1000 - ERROR_WINDOW_SECS;
    s.note_ereports(vec![at(edge, 499), at(edge, 500), at(edge + 1, 0), at(2000, 0)], now);
    assert_eq!(offsets(&s), vec![edge, edge + 1, 2000]);
    s.note_ereports(vec![at(1100, 0)], Timestamp { secs: 1001 + 120, nanos: 0 });
    assert_eq!(offsets(&s), vec![2000, 1100]);
    s.note_ereports(Vec::new(), Timestamp { secs: 5000, nanos: 0 });
    assert!(s.ereports.is_empty());
    s.note_ereports(vec![at(u64::MAX, 0), at(0, 0)], Timestamp { secs: 60, nanos: 0 });
    assert_eq!(offsets(&s), vec![u64::MAX, 0]);
}

#[test]
fn the_window_spans_the_epoch() {
    let early = |secs: i128| Ereport { ts: Timestamp { secs, nanos: 0 }, ..at(1, 0) };
    let mut s = Session::new();
    let all = vec![early(-100), early(-61), early(-60), early(i128::MAX), early(i128::MIN)];
    s.note_ereports(all, Timestamp::from_secs(60));
    let kept: Vec<i128> = s.ereports.iter().map(|e| e.ts.secs).collect();
    assert_eq!(kept, vec![-60, i128::MAX]);
}

#[test]
fn a_hundred_events_are_kept() {
    let mut s = Session::new();
    let now = Timestamp::from_secs(0);
    s.note_ereports((0..80).map(|n| at(n, 0)).collect(), now);
    s.note_ereports((80..150).map(|n| at(n, 0)).collect(), now);
    assert_eq!(s.ereports.len(), ERROR_CAP);
    assert_eq!(offsets(&s), (50..150).collect::<Vec<u64>>());
}

fn named(names: &[&str]) -> Vec<PoolSnapshot> {
    let snap = |n: &&str| PoolSnapshot { name: n.to_string(), ..sample(Scenario::Done, 0) };
    names.iter().map(snap).collect()
}

fn poll(s: &mut Session, found: &[&str], sampled: &[&str]) -> String {
    s.discover(strings(found));
    let snaps = named(sampled);
    s.refresh(&snaps, Vec::new(), Timestamp::from_secs(0));
    snaps[s.active].name.clone()
}

#[test]
fn a_poll_shows_the_selected_pool() {
    let mut s = Session::new();
    assert_eq!(poll(&mut s, &["a", "b", "c"], &["a", "b", "c"]), "a");
    s.press(Key::Right, 3);
    assert_eq!(poll(&mut s, &["a", "b", "c"], &["b", "c"]), "b");
    assert_eq!(s.pools, strings(&["b", "c"]));
    assert_eq!(poll(&mut s, &["a", "b", "c"], &["a", "b", "c"]), "b");
    s.press(Key::Right, 3);
    assert_eq!(poll(&mut s, &["a", "b", "c"], &["c"]), "c");
    assert_eq!(poll(&mut s, &["x", "c"], &["x", "c"]), "c");
    assert_eq!(poll(&mut s, &["x", "c"], &["x"]), "x");
}

#[test]
fn a_selected_pool_comes_back() {
    let all = ["a", "b", "c"];
    let mut s = Session::new();
    poll(&mut s, &all, &all);
    s.press(Key::Char('2'), 3);
    assert_eq!(poll(&mut s, &all, &["a", "c"]), "a");
    assert_eq!(s.selected_pool(), Some("b".to_string()));
    assert_eq!(poll(&mut s, &all, &["c"]), "c");
    s.press(Key::Down, 1);
    s.press(Key::Char('9'), 1);
    assert_eq!(poll(&mut s, &all, &all), "b");
    assert_eq!(s.missing, None);
    assert_eq!(s.active, 1);
}

#[test]
fn a_key_picks_another_pool_for_good() {
    let all = ["a", "b", "c"];
    for key in [Key::Char('2'), Key::Right, Key::Tab, Key::Left, Key::BackTab] {
        let mut s = Session::new();
        poll(&mut s, &all, &all);
        s.press(Key::Char('2'), 3);
        assert_eq!(poll(&mut s, &all, &["a", "c"]), "a");
        s.press(key, 2);
        assert_eq!(s.selected_pool(), Some("c".to_string()));
        assert_eq!(poll(&mut s, &all, &all), "c");
    }
}

#[test]
fn a_pool_that_is_gone_is_forgotten() {
    let mut s = Session::new();
    poll(&mut s, &["a", "b"], &["a", "b"]);
    s.press(Key::Right, 2);
    assert_eq!(poll(&mut s, &["a", "b"], &["a"]), "a");
    assert_eq!(poll(&mut s, &["a"], &["a"]), "a");
    assert_eq!(s.missing, None);
    assert_eq!(poll(&mut s, &["a", "b"], &["a", "b"]), "a");
}

#[test]
fn keys_between_polls_pick_a_sampled_pool() {
    let mut s = Session::new();
    assert_eq!(poll(&mut s, &["a", "b", "c"], &["b", "c"]), "b");
    s.press(Key::Char('2'), 2);
    assert_eq!(poll(&mut s, &["a", "b", "c"], &["a", "b", "c"]), "c");
    assert_eq!(s.active, 2);
}

#[test]
fn a_poll_takes_in_events() {
    let mut s = Session::new();
    s.active = 7;
    s.refresh(&named(&["tank"]), vec![at(5, 0)], Timestamp::from_secs(6));
    assert_eq!(s.active, 0);
    assert_eq!(s.pools, strings(&["tank"]));
    assert_eq!(offsets(&s), vec![5]);
}

#[test]
fn tabs_show_each_snapshot() {
    let snaps = vec![
        sample(Scenario::Scanning, 2),
        sample(Scenario::Done, 0),
        sample(Scenario::Faulted, 0),
        sample(Scenario::Errors, 6),
    ];
    assert_eq!(names_of(&snaps), strings(&["tank"; 4]));
    assert_eq!(scanning_flags(&snaps), vec![true, false, false, true]);
    assert_eq!(
        health_grades(&snaps),
        vec![PoolHealth::Healthy, PoolHealth::Healthy, PoolHealth::Fault, PoolHealth::Degraded]
    );
}
