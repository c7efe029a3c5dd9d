use zresmon::binary64::Binary64;
use zresmon::demo::{sample, Scenario};
use zresmon::model::{Ereport, ErrKind, PoolHealth, Timestamp};
use zresmon::style::{Cell, Color};
use zresmon::surface::shortened;
use zresmon::ui::{
    bytes_fraction, device_heat_list, device_heat_row, device_heat_row_sized, fmt_bytes,
    heat_cell_color, heat_char, heat_legend, ime_fallback, no_color, panel_border_style,
    panel_title_style, pool_health_marker, progress_label, retry_badge, rpm_gauge, strip_colors,
    surface_grid, surface_lines, tab_markers, tab_style, DeviceHeat, PANEL_MAP, PANEL_TREE,
};

fn num(x: f64) -> Binary64 {
    Binary64 { bits: x.to_bits() }
}

#[test]
fn progress_label_handles_none_and_bounds() {
    assert_eq!(progress_label(None), "");
    assert_eq!(progress_label(Some(num(0.0))), "0.0%");
    assert_eq!(progress_label(Some(num(1.0))), "100.0%");
    assert_eq!(progress_label(Some(num(0.5))), "50.0%");
    assert_eq!(progress_label(Some(num(9.9))), "100.0%");
    assert_eq!(progress_label(Some(num(-1.0))), "0.0%");
}

#[test]
fn progress_label_rounds_like_formatting() {
    for i in 0..=1000u32 {
        let r = i as f64 / 999.0;
        assert_eq!(progress_label(Some(num(r))), format!("{:.1}%", r.clamp(0.0, 1.0) * 100.0));
    }
}

#[test]
fn rpm_gauge_matches_rpm_style() {
    assert_eq!(rpm_gauge(Some(num(0.5)), 20), "######------[50.0%]");
    assert_eq!(rpm_gauge(Some(num(1.0)), 20), "###########[100.0%]");
    assert_eq!(rpm_gauge(None, 12), "");
    assert!(rpm_gauge(Some(num(0.3)), 6).starts_with('#'));
}

#[test]
fn rpm_gauge_is_never_overfilled() {
    for i in 0..=200u32 {
        let r = i as f64 / 200.0;
        let g = rpm_gauge(Some(num(r)), 24);
        let pct = format!("{:.1}%", r * 100.0);
        let body = 24usize.saturating_sub(pct.len() + 3).max(4);
        let filled = (body as f64 * r).round() as usize;
        let want = format!("{}{}[{}]", "#".repeat(filled), "-".repeat(body - filled), pct);
        assert_eq!(g, want);
    }
    assert_eq!(rpm_gauge(Some(num(f64::NAN)), 24), format!("{}[NaN%]", "-".repeat(17)));
}

#[test]
fn rpm_gauge_runs_from_empty_to_full() {
    let mut last = (0, 0);
    for i in 0..=1000 {
        let g = rpm_gauge(Some(num(f64::from(i) / 1000.0)), 40);
        let filled = g.matches('#').count();
        let body = filled + g.matches('-').count();
        if body == last.1 {
            assert!(last.0 <= filled);
        }
        last = (filled, body);
    }
    assert_eq!(rpm_gauge(Some(num(0.0)), 40), format!("{}[0.0%]", "-".repeat(33)));
    assert_eq!(rpm_gauge(Some(num(1.0)), 40), format!("{}[100.0%]", "#".repeat(31)));
}

#[test]
fn bytes_fraction_handles_zero_total() {
    assert_eq!(bytes_fraction(0, 0), "");
    assert_eq!(
        bytes_fraction(150 * 1024 * 1024, 400 * 1024 * 1024),
        "150.0 MiB / 400.0 MiB"
    );
}

#[test]
fn byte_counts_use_binary_units() {
    assert_eq!(fmt_bytes(0), "0 B");
    assert_eq!(fmt_bytes(1023), "1023 B");
    assert_eq!(fmt_bytes(1024), "1.0 KiB");
    assert_eq!(fmt_bytes(1536), "1.5 KiB");
    assert_eq!(fmt_bytes(1024 * 1024 - 1), "1024.0 KiB");
    assert_eq!(fmt_bytes(3 << 40), "3.0 TiB");
    assert_eq!(fmt_bytes(5 << 50), "5.0 PiB");
    assert_eq!(fmt_bytes((1 << 60) - 1), "1.0 EiB");
    assert_eq!(fmt_bytes(u64::MAX), "16.0 EiB");
}

#[test]
fn byte_counts_round_like_formatting() {
    let units = ["B", "KiB", "MiB", "GiB", "TiB", "PiB", "EiB"];
    let mut n: u64 = 1;
    for _ in 0..2000 {
        n = n.wrapping_mul(6364136223846793005).wrapping_add(1442695040888963407);
        let bytes = n >> (n % 61);
        let mut value = bytes as f64;
        let mut unit = 0;
        while value >= 1024.0 && unit < 6 {
            value /= 1024.0;
            unit += 1;
        }
        let want = if unit == 0 {
            format!("{value:.0} B")
        } else {
            format!("{value:.1} {}", units[unit])
        };
        assert_eq!(fmt_bytes(bytes), want);
    }
}

#[test]
fn retry_badge_matches_model_policy() {
    let s = sample(Scenario::Errors, 6);
    assert!(matches!(retry_badge(&s), Some(("⟳ RETRY", _))));
    let f = sample(Scenario::Faulted, 0);
    assert!(matches!(retry_badge(&f), Some(("✚ REPLACE", _))));
    let d = sample(Scenario::Done, 0);
    assert!(retry_badge(&d).is_none());
    assert_eq!(retry_badge(&s).unwrap().1, Color::Yellow);
    assert_eq!(retry_badge(&f).unwrap().1, Color::Red);
}

fn on_device(path: &str, off: u64) -> Ereport {
    Ereport {
        vdev_path: path.to_string(),
        vdev_guid: 1,
        io_offset: off,
        io_size: 4096,
        kind: ErrKind::Checksum,
        ts: Timestamp::from_secs(1),
    }
}

#[test]
fn surface_map_buckets_by_offset() {
    let mk = |off: u64| on_device("/dev/sdb", off);
    let size = 1 << 30;
    let reps = vec![mk(0), mk(1000), mk(size / 2), mk(size - 1)];
    let grid = surface_grid(&reps.iter().collect::<Vec<_>>(), size, 2, 2);
    assert_eq!(grid[0][0], 2);
    assert_eq!(grid[1][0], 1);
    assert_eq!(grid[1][1], 1);
    assert_eq!(surface_lines(&grid)[0], "░·");
    assert_eq!(surface_lines(&grid)[1], "░░");
}

#[test]
fn surface_map_loses_no_event() {
    let reps: Vec<Ereport> = (0..97u64).map(|i| on_device("d", i * i * 31337)).collect();
    let refs: Vec<&Ereport> = reps.iter().collect();
    for (cols, rows) in [(1usize, 1usize), (7, 3), (40, 1)] {
        let size = 250_000_000u64;
        let grid = surface_grid(&refs, size, cols, rows);
        let total: u32 = grid.iter().flatten().sum();
        assert_eq!(total, 97);
        let cells = cols * rows;
        let mut want = vec![vec![0u32; cols]; rows];
        for e in &reps {
            let off = e.io_offset.min(size - 1);
            let idx = ((off as f64 / size as f64) * cells as f64) as usize;
            let idx = idx.min(cells - 1);
            want[idx / cols][idx % cols] += 1;
        }
        assert_eq!(grid, want);
    }
    let none = surface_grid(&refs, 0, 3, 2);
    assert_eq!(none, vec![vec![0; 3]; 2]);
    let nothing: Vec<&Ereport> = Vec::new();
    assert_eq!(surface_grid(&nothing, 5, 0, 2), vec![Vec::<u32>::new(); 2]);
}

#[test]
fn devices_are_listed_worst_first() {
    let reps = vec![
        on_device("b", 5),
        on_device("c", 1),
        on_device("c", 9),
        on_device("e", 0),
        on_device("x", 3),
    ];
    let refs: Vec<&Ereport> = reps.iter().collect();
    let devices: Vec<String> = ["a", "b", "c", "d", "e"].iter().map(|s| s.to_string()).collect();
    let list = device_heat_list(&refs, &devices, 4);
    let order: Vec<(&str, u32)> = list.iter().map(|d| (d.name.as_str(), d.total)).collect();
    assert_eq!(order, vec![("c", 2), ("b", 1), ("e", 1), ("a", 0), ("d", 0)]);
    assert_eq!(list[0].buckets, vec![1, 0, 0, 1]);
    assert_eq!(list[1].buckets, vec![0, 0, 0, 1]);
    assert_eq!(list[2].buckets, vec![1, 0, 0, 0]);
    assert_eq!(list[3].buckets, vec![0, 0, 0, 0]);
    assert_eq!(device_heat_list(&refs, &devices, 0)[0].buckets, vec![2]);
}

#[test]
fn greatest_offset_does_not_overflow() {
    let reps = vec![on_device("a", u64::MAX), on_device("a", 0)];
    let refs: Vec<&Ereport> = reps.iter().collect();
    let list = device_heat_list(&refs, &["a".to_string()], 3);
    assert_eq!(list[0].buckets, vec![1, 0, 1]);
}

fn heat(name: &str, buckets: Vec<u32>, total: u32) -> DeviceHeat {
    DeviceHeat { name: name.to_string(), buckets, total }
}

#[test]
fn strips_can_be_cloned() {
    let d = heat("/dev/sdb", vec![0, 3, 17], 20);
    assert_eq!(d.clone(), d);
}

#[test]
fn device_rows_keep_the_end_of_long_names() {
    let d = heat("/var/tmp/zresmon-lab/zrm0-spare1.img", vec![0, 1, 3, 7, 16], 27);
    let (name, strip, count) = device_heat_row(&d);
    assert_eq!(name, "…zresmon-lab/zrm0-spare1.img");
    assert_eq!(strip, "·░▒▓█");
    assert_eq!(count, "27");
    let (name, _, _) = device_heat_row_sized(&d, 11);
    assert_eq!(name, "…spare1.img");
    let (name, _, _) = device_heat_row_sized(&d, 1);
    assert_eq!(name, "…");
    let (name, _, _) = device_heat_row_sized(&d, 40);
    assert_eq!(name, "/var/tmp/zresmon-lab/zrm0-spare1.img");
}

#[test]
fn names_are_cut_between_characters_only() {
    assert_eq!(shortened("日本", 6), Some("日本".to_string()));
    assert_eq!(shortened("日本", 4), Some("…本".to_string()));
    assert_eq!(shortened("日本", 5), None);
    assert_eq!(shortened("日本", 1), Some("…".to_string()));
    assert_eq!(shortened("ab", 0), None);
    assert_eq!(shortened("", 0), Some("".to_string()));
}

#[test]
fn density_has_five_steps() {
    let steps = [(0, '·'), (1, '░'), (2, '░'), (3, '▒'), (6, '▒'), (7, '▓'), (15, '▓'), (16, '█')];
    for (n, c) in steps {
        assert_eq!(heat_char(n), c);
    }
    assert_eq!(heat_char(u32::MAX), '█');
    assert_eq!(heat_legend(), "density: · 0  ░ 1-2  ▒ 3-6  ▓ 7-15  █ 16+ events/2min");
}

#[test]
fn hangul_ime_fallback_maps_hotkeys() {
    assert_eq!(ime_fallback('ㅂ'), 'q');
    assert_eq!(ime_fallback('ㅃ'), 'q');
    assert_eq!(ime_fallback('ㅌ'), 'x');
    assert_eq!(ime_fallback('ㅊ'), 'c');
    assert_eq!(ime_fallback('ㅍ'), 'v');
    assert_eq!(ime_fallback('q'), 'q');
    assert_eq!(ime_fallback('7'), '7');
    for c in "ㅂㅈㄷㄱㅅㅛㅕㅑㅐㅔㅁㄴㅇㄹㅎㅗㅓㅏㅣㅋㅌㅊㅍㅠㅜㅡ".chars() {
        let out = ime_fallback(c);
        assert!(out.is_ascii_lowercase(), "{c} -> {out}");
    }
}

#[test]
fn two_set_layout_covers_the_keyboard_in_order() {
    let jamo = "ㅂㅈㄷㄱㅅㅛㅕㅑㅐㅔㅁㄴㅇㄹㅎㅗㅓㅏㅣㅋㅌㅊㅍㅠㅜㅡ";
    let keys = "qwertyuiopasdfghjklzxcvbnm";
    let got: String = jamo.chars().map(ime_fallback).collect();
    assert_eq!(got, keys);
    let shifted: String = "ㅃㅉㄸㄲㅆㅒㅖ".chars().map(ime_fallback).collect();
    assert_eq!(shifted, "qwertop");
}

#[test]
fn style_builder_smoke() {
    let style: ratatui::style::Style = ratatui_ppalla::style::StyleBuilder::new()
        .foreground(ratatui::style::Color::Red)
        .bold()
        .build();
    assert_eq!(style.fg, Some(ratatui::style::Color::Red));
    assert!(style.add_modifier.contains(ratatui::style::Modifier::BOLD));
}

#[test]
fn panel_title_style_marks_focused_panel_cyan_bold() {
    let focused = panel_title_style(PANEL_TREE, PANEL_TREE);
    assert_eq!(focused.fg, Some(Color::Cyan));
    assert!(focused.bold);
    let unfocused = panel_title_style(PANEL_TREE, PANEL_MAP);
    assert_eq!(unfocused.fg, None);
    assert!(!unfocused.bold);
}

#[test]
fn panel_border_style_marks_focused_panel_cyan_only() {
    let focused = panel_border_style(PANEL_MAP, PANEL_MAP);
    assert_eq!(focused.fg, Some(Color::Cyan));
    assert!(!focused.bold);
    let unfocused = panel_border_style(PANEL_MAP, PANEL_MAP + 1);
    assert_eq!(unfocused.fg, None);
    assert!(!unfocused.bold);
}

#[test]
fn tab_style_healthy_inactive_keeps_existing_behavior() {
    let s = tab_style(PoolHealth::Healthy, false, false);
    assert_eq!(s.fg, Some(Color::DarkGray));
    assert!(!s.bold);
    assert_eq!(tab_markers(PoolHealth::Healthy, false), "");
    let sc = tab_style(PoolHealth::Healthy, true, false);
    assert_eq!(sc.fg, Some(Color::Yellow));
    assert_eq!(tab_markers(PoolHealth::Healthy, true), "⟳");
}

#[test]
fn tab_style_degraded_inactive_is_yellow_with_marker() {
    let s = tab_style(PoolHealth::Degraded, false, false);
    assert_eq!(s.fg, Some(Color::Yellow));
    assert_eq!(pool_health_marker(PoolHealth::Degraded), "!");
    assert_eq!(tab_markers(PoolHealth::Degraded, true), "!⟳");
}

#[test]
fn tab_style_fault_inactive_is_red_with_replace_marker() {
    let s = tab_style(PoolHealth::Fault, false, false);
    assert_eq!(s.fg, Some(Color::Red));
    assert_eq!(pool_health_marker(PoolHealth::Fault), "✚");
    let fs = tab_style(PoolHealth::Fault, true, false);
    assert_eq!(fs.fg, Some(Color::Red));
    assert_eq!(tab_markers(PoolHealth::Fault, true), "✚⟳");
}

#[test]
fn tab_style_active_fault_keeps_cyan_bold_idiom() {
    let s = tab_style(PoolHealth::Fault, true, true);
    assert_eq!(s.fg, Some(Color::Cyan));
    assert!(s.bold);
    assert_eq!(tab_markers(PoolHealth::Fault, true), "✚⟳");
    let h = tab_style(PoolHealth::Healthy, true, true);
    assert_eq!(h.fg, Some(Color::Cyan));
    assert!(h.bold);
    assert_eq!(tab_markers(PoolHealth::Healthy, true), "⟳");
}

#[test]
fn heat_cell_colors_are_named_ansi_only() {
    for c in ['·', '░', '▒', '▓', '█'] {
        assert!(
            !matches!(heat_cell_color(c), Color::Rgb(_, _, _)),
            "{c} must not map to an RGB literal"
        );
    }
    assert_eq!(heat_cell_color('░'), Color::Yellow);
    assert_eq!(heat_cell_color('▒'), Color::LightYellow);
    assert_eq!(heat_cell_color('·'), Color::DarkGray);
    assert_eq!(heat_cell_color('▓'), Color::Red);
    assert_eq!(heat_cell_color('█'), Color::Red);
    assert_eq!(heat_cell_color('x'), Color::DarkGray);
}

const BOLD: u16 = 1;

fn cell(symbol: &str, fg: Color, bg: Color, modifier: u16) -> Cell {
    Cell { symbol: symbol.to_string(), fg, bg, underline_color: Color::Green, modifier }
}

#[test]
fn strip_colors_resets_colors_keeps_attributes_and_glyphs() {
    let mut buf = vec![
        cell("A", Color::Red, Color::Blue, BOLD),
        cell("░", Color::Yellow, Color::Reset, 0),
    ];
    strip_colors(&mut buf);
    assert_eq!(buf[0].fg, Color::Reset);
    assert_eq!(buf[0].bg, Color::Reset);
    assert_eq!(buf[1].fg, Color::Reset);
    assert_eq!(buf[0].modifier, BOLD);
    assert_eq!(buf[0].symbol, "A");
    assert_eq!(buf[1].symbol, "░");
    assert_eq!(buf[0].underline_color, Color::Reset);
    assert_eq!(buf[1].underline_color, Color::Reset);
    assert_eq!(buf.len(), 2);
}

#[test]
fn no_color_needs_a_value() {
    assert!(no_color(Some("1")));
    assert!(!no_color(Some("")));
    assert!(!no_color(None));
}
