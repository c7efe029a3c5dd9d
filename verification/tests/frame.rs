use zresmon::app::frame::{compose, place, Areas};
use zresmon::app::{once_output, render_frame, render_frame_ctx, render_frame_scrolled, ViewCtx};
use zresmon::demo::{ereports, sample, Scenario};
use zresmon::layout::Area;
use zresmon::model::{PoolHealth, PoolSnapshot};
use zresmon::style::{Color, Line};
use zresmon::ui::{PANEL_MAP, PANEL_TREE};

fn area(x: u16, y: u16, width: u16, height: u16) -> Area {
    Area { x, y, width, height }
}

fn plain(l: &Line) -> String {
    l.spans.iter().map(|s| s.text.as_str()).collect()
}

fn texts(lines: &[Line]) -> Vec<String> {
    lines.iter().map(plain).collect()
}

fn wide() -> Areas {
    Areas {
        head: area(0, 0, 200, 5),
        tree: area(0, 5, 110, 20),
        map: area(110, 5, 90, 20),
        foot: area(0, 25, 200, 7),
    }
}

fn with_map(width: u16, height: u16) -> Areas {
    Areas { map: area(110, 5, width, height), ..wide() }
}

#[test]
fn screen_is_divided_as_the_layout_says() {
    let a = place(area(0, 0, 80, 24), true);
    assert_eq!(a.head, area(0, 0, 80, 5));
    assert_eq!(a.tree, area(0, 5, 44, 12));
    assert_eq!(a.map, area(44, 5, 36, 12));
    assert_eq!(a.foot, area(0, 17, 80, 7));
    let b = place(area(2, 3, 100, 30), false);
    assert_eq!(b.head, area(2, 3, 100, 4));
    assert_eq!(b.tree, area(2, 7, 55, 19));
    assert_eq!(b.map, area(57, 7, 45, 19));
    assert_eq!(b.foot, area(2, 26, 100, 7));
}

fn nearest_share(percent: u32, whole: u16) -> u16 {
    ((percent * whole as u32 + 50) / 100) as u16
}

#[test]
fn panels_stand_side_by_side() {
    for w in 0..=230 {
        for (x, h) in [(0, 24), (7, 3)] {
            let screen = area(x, 2, w, h);
            let a = place(screen, true);
            assert_eq!(a.tree.x, x);
            assert_eq!(a.map.x, x + a.tree.width);
            assert_eq!(a.tree.width, nearest_share(55, w));
            assert_eq!(a.map.x + a.map.width, x + w);
        }
    }
}

#[test]
fn bands_stand_one_below_the_other() {
    for h in 18..=150 {
        for (y, tabs) in [(0, true), (5, true), (0, false), (5, false)] {
            let a = place(area(1, y, 80, h), tabs);
            assert_eq!((a.head.y, a.head.height), (y, if tabs { 5 } else { 4 }));
            assert_eq!(a.tree.y, a.head.y + a.head.height);
            assert!(a.tree.height >= 6);
            assert_eq!((a.foot.y, a.foot.height), (a.tree.y + a.tree.height, 7));
            assert_eq!(a.foot.y + a.foot.height, y + h);
        }
    }
}

#[test]
fn low_screens_are_stacked_too() {
    for h in 0..18 {
        for (y, tabs) in [(0, true), (5, true), (0, false), (5, false)] {
            let a = place(area(1, y, 80, h), tabs);
            let full = if tabs { 5 } else { 4 };
            assert_eq!(a.head.y, y);
            assert_eq!(a.tree.y, a.head.y + a.head.height);
            assert_eq!(a.foot.y, a.tree.y + a.tree.height);
            assert_eq!(a.foot.y + a.foot.height, y + h);
            assert!(a.head.height <= full && a.foot.height <= 7);
            if h < full + 13 {
                assert_eq!(a.tree.height, h.min(6));
            }
        }
    }
}

#[test]
fn small_screens_are_divided_too() {
    for (w, h) in [(0, 0), (1, 1), (10, 5), (37, 17), (200, 18), (65535, 65535)] {
        let screen = area(0, 0, w, h);
        let a = place(screen, true);
        assert_eq!(a.head.width, w);
        assert_eq!(a.foot.width, w);
        assert_eq!(a.tree.height, a.map.height);
        for part in [a.head, a.tree, a.map, a.foot] {
            assert!(part.x as u32 + part.width as u32 <= w as u32);
            assert!(part.y as u32 + part.height as u32 <= h as u32);
        }
        if h >= 18 {
            assert_eq!((a.head.height, a.foot.height), (5, 7));
        }
    }
}

#[test]
fn header_tells_pool_and_scan() {
    let s = sample(Scenario::Errors, 6);
    let f = compose(wide(), &s, &[], None, 0, 0);
    assert_eq!(
        texts(&f.header),
        vec![
            "pool: tank  ##########------[60.0%]  60.0 MiB / 100.0 MiB",
            "RESILVER SCANNING [⟳ RETRY]  errors=28  examined=60.0 MiB",
        ]
    );
    assert_eq!(f.header[1].spans[0].style.fg, Some(Color::Cyan));
    assert_eq!(f.header[1].spans[2].style.fg, Some(Color::Yellow));
    let idle = compose(wide(), &sample(Scenario::Faulted, 0), &[], None, 0, 0);
    assert_eq!(texts(&idle.header), vec!["pool: tank", "no scan record (idle) [✚ REPLACE]"]);
    assert_eq!(idle.header[1].spans[1].style.fg, Some(Color::Red));
    let done = compose(wide(), &sample(Scenario::Done, 0), &[], None, 0, 0);
    assert_eq!(
        texts(&done.header)[1],
        "RESILVER FINISHED  errors=0  examined=100.0 MiB"
    );
}

#[test]
fn badge_stands_in_the_corner() {
    let screen = area(3, 2, 100, 24);
    let fault = render_frame(screen, &sample(Scenario::Faulted, 0), &[]).unwrap();
    let badge = fault.badge.unwrap();
    assert_eq!(badge.span.text, "✚ REPLACE");
    assert_eq!(badge.span.style.fg, Some(Color::Red));
    assert!(badge.span.style.bold);
    assert_eq!(badge.area, area(94, 25, 9, 1));
    let retry = render_frame(screen, &sample(Scenario::Errors, 6), &[]).unwrap();
    let badge = retry.badge.unwrap();
    assert_eq!(badge.span.text, "⟳ RETRY");
    assert_eq!(badge.area, area(96, 25, 7, 1));
    assert_eq!(render_frame(screen, &sample(Scenario::Done, 0), &[]).unwrap().badge, None);
    let mut idle = sample(Scenario::Done, 0);
    idle.scan = None;
    let quiet = render_frame(screen, &idle, &[]).unwrap();
    assert_eq!(quiet.badge, None);
    assert_eq!(texts(&quiet.header)[1], "no scan record (idle)");
}

#[test]
fn tab_bar_shows_every_pool() {
    let pools: Vec<String> = ["tank", "zrm0", "zr22"].iter().map(|s| s.to_string()).collect();
    let scanning = [false, true];
    let health = [PoolHealth::Fault, PoolHealth::Healthy];
    let ctx = ViewCtx {
        pools: &pools,
        active: 1,
        scanning: &scanning,
        health: &health,
        panel_focus: PANEL_MAP,
    };
    let f = compose(wide(), &sample(Scenario::Done, 0), &[], Some(&ctx), 0, 0);
    assert_eq!(plain(&f.header[0]), " pools: [1: tank✚] [2: zrm0⟳] [3: zr22]  2/3");
    assert_eq!(f.header[0].spans[1].style.fg, Some(Color::Red));
    assert_eq!(f.header[0].spans[3].style.fg, Some(Color::Cyan));
    assert!(f.header[0].spans[3].style.bold);
    assert_eq!(f.header[0].spans[5].style.fg, Some(Color::DarkGray));
    assert_eq!(f.header.len(), 3);
    assert_eq!(f.tree.title.style.fg, None);
    assert_eq!(f.map.title.style.fg, Some(Color::Cyan));
    assert_eq!(f.map.border.fg, Some(Color::Cyan));
    assert!(!f.map.border.bold);
}

#[test]
fn tree_panel_shows_states_and_counters() {
    let f = compose(wide(), &sample(Scenario::Faulted, 0), &[], None, 0, 0);
    assert_eq!(
        texts(&f.tree.lines),
        vec![
            "tank  DEGRADED",
            "  mirror-0  DEGRADED",
            "    /dev/sda  ONLINE  R:12 W:3 C:40",
            "    /dev/sdb  FAULTED  R:900 W:120 C:4500",
        ]
    );
    assert_eq!(f.tree.lines[3].spans[2].style.fg, Some(Color::Red));
    assert_eq!(f.tree.title.text, "vdev tree");
    let r = compose(wide(), &sample(Scenario::Scanning, 3), &[], None, 0, 0);
    assert_eq!(plain(&r.tree.lines[3]), "    /dev/sdb  ONLINE  30.0%");
}

#[test]
fn panels_scroll_and_stop_at_the_end() {
    let areas = Areas { tree: area(0, 5, 110, 4), ..wide() };
    let s = sample(Scenario::Faulted, 0);
    let f = compose(areas, &s, &[], None, 1, 0);
    assert_eq!(f.tree.title.text, "vdev tree 2/4");
    assert_eq!(
        texts(&f.tree.lines),
        vec!["  mirror-0  DEGRADED", "    /dev/sda  ONLINE  R:12 W:3 C:40"]
    );
    let g = compose(areas, &s, &[], None, 99, 0);
    assert_eq!(g.tree.title.text, "vdev tree 4/4");
    assert_eq!(g.tree.lines.len(), 1);
    let flat = Areas { tree: area(0, 5, 110, 1), ..wide() };
    let h = compose(flat, &s, &[], None, 0, 0);
    assert_eq!(h.tree.title.text, "vdev tree");
    assert_eq!(h.tree.lines.len(), 1);
}

#[test]
fn map_panel_narrows_progressively() {
    let s = sample(Scenario::Errors, 6);
    let es = ereports(Scenario::Errors, 6);
    let at = |w: u16| texts(&compose(with_map(w, 20), &s, &es, None, 0, 0).map.lines);
    let full = at(90);
    assert_eq!(full.len(), 4);
    let mut strip = vec!['·'; 40];
    for i in 0..4u64 {
        let off = i * 4 * 1024 * 1024 * 1024;
        let size = 3u64 * 4 * 1024 * 1024 * 1024 + 1;
        strip[(((off as f64 / size as f64) * 40.0) as usize).min(39)] = '░';
    }
    let strip: String = strip.into_iter().collect();
    assert_eq!(full[0], format!("{:<28} {} {:>4} ev", "/dev/sdb", strip, 4));
    assert_eq!(full[1], format!("{:<28} {} {:>4} ev", "/dev/sda", "·".repeat(40), 0));
    assert_eq!(full[2], "density: · 0  ░ 1-2  ▒ 3-6  ▓ 7-15  █ 16+ events/2min");
    assert_eq!(full[3], "ereports(2min): 4");
    assert_eq!(at(72)[1], format!("{:<28} {} {:>4} ev", "/dev/sda", "·".repeat(31), 0));
    assert_eq!(at(46)[1], format!("{:<20} {} {:>4} ev", "/dev/sda", "·".repeat(13), 0));
    assert_eq!(at(45)[1], format!("{:<32} {:>4} ev", "/dev/sda", 0));
    assert_eq!(at(30)[1], format!("{:<17} {:>4} ev", "/dev/sda", 0));
    assert_eq!(at(29)[1], "   0 ev");
    assert_eq!(at(0)[0], "   4 ev");
}

#[test]
fn map_panel_scrolls_on_its_own() {
    let s = sample(Scenario::Faulted, 0);
    let f = compose(with_map(90, 4), &s, &[], None, 0, 2);
    assert_eq!(f.map.title.text, "error surface map 3/4");
    assert_eq!(f.map.lines.len(), 2);
    assert_eq!(f.tree.title.text, "vdev tree");
}

#[test]
fn footer_shows_the_keys() {
    let f = compose(wide(), &sample(Scenario::Done, 0), &[], None, 0, 0);
    assert_eq!(
        plain(&f.footer),
        "q quit · ←/→/Tab pool · 1-9 jump · h/l panel · ↑/↓ scroll · read-only"
    );
}

#[test]
fn frames_are_composed_in_the_areas_of_the_screen() {
    let s = sample(Scenario::Errors, 6);
    let es = ereports(Scenario::Errors, 6);
    let screen = area(0, 0, 120, 40);
    let f = render_frame(screen, &s, &es).unwrap();
    assert_eq!(f, compose(place(screen, false), &s, &es, None, 0, 0));
    let pools = vec!["tank".to_string()];
    let ctx = ViewCtx {
        pools: &pools,
        active: 0,
        scanning: &[true],
        health: &[PoolHealth::Degraded],
        panel_focus: PANEL_TREE,
    };
    let g = render_frame_ctx(screen, &s, &es, Some(&ctx)).unwrap();
    assert_eq!(g, compose(place(screen, true), &s, &es, Some(&ctx), 0, 0));
    let h = render_frame_scrolled(screen, &s, &es, Some(&ctx), 2, 1).unwrap();
    assert_eq!(h, compose(place(screen, true), &s, &es, Some(&ctx), 2, 1));
}

#[test]
fn names_that_cannot_be_cut_give_no_frame() {
    let mut s: PoolSnapshot = sample(Scenario::Done, 0);
    s.root.children[0].children[0].name = "日本語日本語日本語日本語".to_string();
    assert!(render_frame(area(0, 0, 200, 40), &s, &[]).is_some());
    s.root.children[0].children[0].name = "日本語日本語日本語日本語x".to_string();
    assert!(render_frame(area(0, 0, 200, 40), &s, &[]).is_none());
}

#[test]
fn report_lists_the_snapshot() {
    let s = sample(Scenario::Errors, 6);
    let es = ereports(Scenario::Errors, 6);
    assert_eq!(
        once_output(&s, &es),
        vec![
            "pool: tank",
            "scan: Resilver/Scanning errors=28",
            "progress: 60.0%  60.0 MiB / 100.0 MiB",
            "retry_needed: true",
            "vdev: tank [DEGRADED]",
            "vdev:   mirror-0 [ONLINE]",
            "vdev:     /dev/sda [ONLINE]",
            "vdev:     /dev/sdb [ONLINE]  R:0 W:0 C:20",
            "ereports: 4",
        ]
    );
}

#[test]
fn report_omits_what_is_unknown() {
    let mut s = sample(Scenario::Faulted, 0);
    assert_eq!(once_output(&s, &[])[1], "scan: none");
    assert_eq!(once_output(&s, &[])[2], "retry_needed: false");
    s.scan = sample(Scenario::Done, 0).scan;
    let scan = s.scan.as_mut().unwrap();
    scan.to_examine = 0;
    let lines = once_output(&s, &[]);
    assert_eq!(lines[1], "scan: Resilver/Finished errors=0");
    assert_eq!(lines[2], "retry_needed: false");
}
