//! What a frame and a report read, part by part.

use crate::app::frame::{
    at_least_one, badge_span, composed, corner_badge, header_lines, heat_spans, inside, leaf_names,
    map_columns, map_heats, map_lines, names_fit, panel_title, placed, pool_spans, rendered,
    scan_spans, tab_bar, tabs, vdev_spans, visible, Areas, CtxView,
};
use crate::app::panels::{law_report_follows_the_walk, law_tree_panel_follows_the_walk};
use crate::app::report::{report, tree_report, vdev_report};
use crate::collect::printed::state_word;
use crate::model::{progress_ratio, wants_retry, EreportView, PoolHealth, PoolView, VdevRow};
use crate::number::decimal;
use crate::style::{Color, SpanView, Style};
use crate::layout::Area;
use crate::surface::{
    density_color, law_ascii_names_can_be_shortened, legend_text, short_name, strip_text, HeatView,
};
use crate::tree::walk;
use crate::ui::{
    badge, border_style, bytes_text, fraction_text, gauge_text, markers, percent_text, tab_look,
    title_style,
};
use vstd::prelude::*;

verus! {

/// The grade that is known of a tab, or healthy.
pub open spec fn grade_at(c: CtxView, i: int) -> PoolHealth {
    if i < c.health.len() {
        c.health[i]
    } else {
        PoolHealth::Healthy
    }
}

proof fn lemma_tabs(c: CtxView, n: int)
    requires
        0 < n <= c.pools.len(),
    ensures
        tabs(c, n).len() == 2 * n - 1,
        forall|i: int|
            0 <= i < n ==> (#[trigger] tabs(c, n)[2 * i]).text == "["@ + decimal((i + 1) as nat)
                + ": "@ + c.pools[i] + markers(
                grade_at(c, i),
                i < c.scanning.len() && c.scanning[i],
            ) + "]"@,
        forall|i: int|
            0 <= i < n ==> (#[trigger] tabs(c, n)[2 * i]).style == tab_look(
                grade_at(c, i),
                i < c.scanning.len() && c.scanning[i],
                i == c.active,
            ),
        forall|i: int| 0 <= i < n - 1 ==> (#[trigger] tabs(c, n)[2 * i + 1]).text == " "@,
    decreases n,
{
    let t = tabs(c, n);
    if n > 1 {
        lemma_tabs(c, n - 1);
        let u = tabs(c, n - 1);
        assert(t.len() == u.len() + 2);
        assert forall|k: int| 0 <= k < u.len() implies #[trigger] t[k] == u[k] by {}
        assert(t[2 * (n - 1)] == t.last());
        assert forall|i: int| 0 <= i < n implies (#[trigger] t[2 * i]).text == "["@ + decimal(
            (i + 1) as nat,
        ) + ": "@ + c.pools[i] + markers(
            grade_at(c, i),
            i < c.scanning.len() && c.scanning[i],
        ) + "]"@ && t[2 * i].style == tab_look(
            grade_at(c, i),
            i < c.scanning.len() && c.scanning[i],
            i == c.active,
        ) by {
            if i < n - 1 {
                assert(t[2 * i] == u[2 * i]);
            }
        }
        assert forall|i: int| 0 <= i < n - 1 implies (#[trigger] t[2 * i + 1]).text == " "@ by {
            if i < n - 2 {
                assert(t[2 * i + 1] == u[2 * i + 1]);
            }
        }
    } else {
        assert(t.len() == 1);
    }
}

/// The tab bar reads: its title, every pool with its number, its name and its
/// markers, in the look of its grade, blanks between them, and at the end the number
/// of the pool that is shown and how many there are.
pub proof fn law_tab_bar_reads(c: CtxView, i: int)
    requires
        0 <= i < c.pools.len(),
        c.active < usize::MAX,
    ensures
        ({
            let bar = tab_bar(c);
            let scanning = i < c.scanning.len() && c.scanning[i];
            &&& bar.len() == 2 * c.pools.len() + 1
            &&& bar[0].text == " pools: "@
            &&& bar[1 + 2 * i].text == "["@ + decimal((i + 1) as nat) + ": "@ + c.pools[i]
                + markers(grade_at(c, i), scanning) + "]"@
            &&& bar[1 + 2 * i].style == tab_look(grade_at(c, i), scanning, i == c.active)
            &&& i + 1 < c.pools.len() ==> bar[2 + 2 * i].text == " "@
            &&& bar.last().text == "  "@ + decimal((c.active + 1) as nat) + "/"@ + decimal(
                c.pools.len(),
            )
        }),
{
    let n = c.pools.len() as int;
    lemma_tabs(c, n);
    let t = tabs(c, n);
    let bar = tab_bar(c);
    assert(bar[1 + 2 * i] == t[2 * i]);
    if i + 1 < n {
        assert(bar[2 + 2 * i] == t[2 * i + 1]);
    }
}

/// The line on the pool reads its name, then its gauge of 24 cells and its byte
/// fraction as far as they are known.
pub proof fn law_pool_line_reads(s: PoolView)
    ensures
        ({
            let l = pool_spans(s);
            &&& l[0].text == "pool: "@ + s.name
            &&& s.scan is None ==> l.len() == 1
            &&& s.scan matches Some(scan) ==> {
                let known = progress_ratio(scan) is Some;
                &&& known ==> l[1].text == "  "@ && l[2].text == gauge_text(
                    progress_ratio(scan),
                    24,
                ) && l[2].style == (Style { fg: Some(Color::Cyan), bold: true })
                &&& known && scan.to_examine > 0 ==> l.len() == 5 && l[3].text == "  "@
                    && l[4].text == fraction_text(scan.examined, scan.to_examine)
                &&& known && scan.to_examine == 0 ==> l.len() == 3
                &&& !known && scan.to_examine > 0 ==> l.len() == 3 && l[2].text == fraction_text(
                    scan.examined,
                    scan.to_examine,
                )
                &&& !known && scan.to_examine == 0 ==> l.len() == 1
            }
        }),
{
    if let Some(scan) = s.scan {
        crate::ui::law_unknown_is_omitted(
            progress_ratio(scan),
            24,
            scan.examined,
            scan.to_examine,
        );
    }
}

/// The line on the scan reads its kind, its state, the badge, its errors and what it
/// has examined; without a scan it says so and shows the badge all the same.
pub proof fn law_scan_line_reads(s: PoolView)
    ensures
        ({
            let l = scan_spans(s);
            &&& s.scan matches Some(scan) ==> {
                &&& l.len() == 4
                &&& scan.func is Resilver ==> l[0].text == "RESILVER"@ + " "@
                &&& scan.func is Scrub ==> l[0].text == "SCRUB"@ + " "@
                &&& scan.func is ErrorScrub ==> l[0].text == "ERROR SCRUB"@ + " "@
                &&& scan.state is Idle ==> l[1].text == "IDLE"@
                &&& scan.state is Scanning ==> l[1].text == "SCANNING"@
                &&& scan.state is Finished ==> l[1].text == "FINISHED"@
                &&& scan.state is Canceled ==> l[1].text == "CANCELED"@
                &&& l[2] == badge_span(s)
                &&& l[3].text == "  errors="@ + decimal(scan.errors as nat) + "  examined="@
                    + bytes_text(scan.examined)
            }
            &&& s.scan is None ==> l.len() == 2 && l[0].text == "no scan record (idle)"@ && l[1]
                == badge_span(s)
            &&& badge(s) matches Some((text, color)) ==> badge_span(s).text == " ["@ + text + "]"@
                && badge_span(s).style == (Style { fg: Some(color), bold: true })
        }),
{
}

/// The header has the tab bar, where there are tabs, the line on the pool and the
/// line on the scan, in this order.
pub proof fn law_header_reads(s: PoolView, ctx: Option<CtxView>)
    ensures
        ctx matches Some(c) ==> header_lines(s, ctx) == seq![
            tab_bar(c),
            pool_spans(s),
            scan_spans(s),
        ],
        ctx is None ==> header_lines(s, ctx) == seq![pool_spans(s), scan_spans(s)],
{
    if let Some(c) = ctx {
        assert(header_lines(s, ctx) =~= seq![tab_bar(c), pool_spans(s), scan_spans(s)]);
    } else {
        assert(header_lines(s, ctx) =~= seq![pool_spans(s), scan_spans(s)]);
    }
}

/// A panel shows as many lines as fit, from the first visible one on, and no fewer
/// where there are more.
pub proof fn law_panel_is_filled(lines: Seq<Seq<SpanView>>, off: nat, inner_h: nat, i: int)
    requires
        off < lines.len(),
        inner_h > 0,
    ensures
        ({
            let shown = visible(lines, off, inner_h);
            &&& lines.len() - off >= inner_h ==> shown.len() == inner_h
            &&& lines.len() - off < inner_h ==> shown.len() == lines.len() - off
            &&& 0 <= i < shown.len() ==> shown[i] == lines[off + i]
        }),
{
}

/// Scrolled past its end, a panel shows its last line.
pub proof fn law_panel_shows_its_last_line(lines: Seq<Seq<SpanView>>, off: nat, inner_h: nat)
    requires
        lines.len() > 0,
        off >= lines.len(),
    ensures
        visible(lines, off, inner_h) == seq![lines.last()],
{
    assert(visible(lines, off, inner_h) =~= seq![lines.last()]);
}

/// The title of a panel has the position only where not everything fits: the number
/// of the first visible line and how many there are.
pub proof fn law_title_reads(name: Seq<char>, total: nat, off: nat, inner_h: nat)
    ensures
        total <= inner_h || inner_h == 0 ==> panel_title(name, total, off, inner_h) == name,
        total > inner_h && inner_h > 0 && off < total ==> panel_title(name, total, off, inner_h)
            == name + " "@ + decimal(off + 1) + "/"@ + decimal(total),
        total > inner_h && inner_h > 0 && off >= total ==> panel_title(name, total, off, inner_h)
            == name + " "@ + decimal(total) + "/"@ + decimal(total),
{
}

/// What the two panels of a frame show: the lines of the vdev tree, as the walk
/// meets its nodes, and those of the map, each from where it is scrolled to; the
/// focused one is marked.
pub proof fn law_frame_reads(
    areas: Areas,
    s: PoolView,
    es: Seq<EreportView>,
    ctx: Option<CtxView>,
    tree_off: nat,
    map_off: nat,
    i: int,
)
    requires
        areas.tree.height > 2,
        areas.map.height > 2,
        tree_off < walk(s.root, 0).len(),
    ensures
        ({
            let f = composed(areas, s, es, ctx, tree_off, map_off);
            let w = walk(s.root, 0);
            &&& f.areas == areas
            &&& f.header == header_lines(s, ctx)
            &&& 0 <= i < f.tree.lines.len() ==> tree_off + i < w.len() && f.tree.lines[i]
                == vdev_spans(w[tree_off + i].node.row, w[tree_off + i].depth)
            &&& w.len() - tree_off >= areas.tree.height - 2 ==> f.tree.lines.len()
                == areas.tree.height - 2
            &&& w.len() - tree_off < areas.tree.height - 2 ==> f.tree.lines.len() == w.len()
                - tree_off
            &&& f.map.lines == visible(
                map_lines(
                    s,
                    es,
                    if areas.map.width < 2 {
                        0
                    } else {
                        (areas.map.width - 2) as nat
                    },
                ),
                map_off,
                (areas.map.height - 2) as nat,
            )
            &&& f.footer.len() == 1
            &&& f.badge == corner_badge(s, areas.foot)
            &&& ctx matches Some(c) ==> {
                &&& f.tree.title.style == title_style(c.panel_focus, 0)
                &&& f.tree.border == border_style(c.panel_focus, 0)
                &&& f.map.title.style == title_style(c.panel_focus, 1)
                &&& f.map.border == border_style(c.panel_focus, 1)
            }
            &&& ctx is None ==> {
                &&& f.tree.border == (Style { fg: None, bold: false })
                &&& f.map.border == (Style { fg: None, bold: false })
            }
        }),
{
    law_tree_panel_follows_the_walk(s.root, 0);
}

/// The columns of the map by the width of its panel: at 70 and more a name of 28, at
/// 44 and more one of 20, each with as long a strip as fits, 40 cells at most; at 28
/// and more the name alone; below that only the count.
pub proof fn law_map_columns_by_width(w: nat)
    ensures
        w >= 79 ==> map_columns(w) == (28nat, 40nat),
        70 <= w < 79 ==> map_columns(w) == (28nat, (w - 39) as nat),
        44 <= w < 70 ==> map_columns(w) == (20nat, (w - 31) as nat),
        28 <= w < 44 ==> map_columns(w) == ((w - 11) as nat, 0nat),
        w < 28 ==> map_columns(w) == (0nat, 0nat),
{
}

/// The row of a device reads its name, padded to its column, its strip, a character
/// for each cell in the color of its density, and its number of events, padded to
/// four characters.
pub proof fn law_map_row_reads(d: HeatView, name_w: nat, strip_cols: nat, i: int)
    requires
        name_w > 0,
        strip_cols > 0,
        short_name(d.name, name_w) is Some,
        0 <= i < d.buckets.len(),
    ensures
        ({
            let l = heat_spans(d, name_w, strip_cols);
            let name = short_name(d.name, name_w)->Some_0;
            let count = decimal(d.total as nat);
            let strip = strip_text(d.buckets);
            &&& l.len() == 4 + d.buckets.len()
            &&& l[0].text.len() == (if name.len() < name_w {
                name_w
            } else {
                name.len()
            })
            &&& l[0].text.take(name.len() as int) == name
            &&& forall|k: int| name.len() <= k < l[0].text.len() ==> #[trigger] l[0].text[k] == ' '
            &&& l[1].text == " "@
            &&& l[2 + i].text == seq![strip[i]]
            &&& l[2 + i].style == (Style { fg: Some(density_color(strip[i])), bold: false })
            &&& l[2 + d.buckets.len() as int].text == " "@
            &&& count.len() >= 4 ==> l.last().text == count + " ev"@
            &&& count.len() < 4 ==> l.last().text.len() == 4 + " ev"@.len() && l.last().text.skip(
                4 - count.len(),
            ) == count + " ev"@ && forall|k: int|
                0 <= k < 4 - count.len() ==> #[trigger] l.last().text[k] == ' '
        }),
{
    let l = heat_spans(d, name_w, strip_cols);
    let name = short_name(d.name, name_w)->Some_0;
    let count = decimal(d.total as nat);
    assert(l[0].text.take(name.len() as int) =~= name);
    if count.len() < 4 {
        assert(l.last().text.skip(4 - count.len()) =~= count + " ev"@);
    }
}

/// Narrow panels lose the strip first, then the name, never the count.
pub proof fn law_narrow_map_rows(d: HeatView, name_w: nat, strip_cols: nat)
    ensures
        name_w == 0 && strip_cols == 0 ==> heat_spans(d, name_w, strip_cols).len() == 1,
        name_w > 0 && strip_cols == 0 ==> heat_spans(d, name_w, strip_cols).len() == 3,
        heat_spans(d, name_w, strip_cols).last() == heat_spans(d, 0, 0)[0],
{
}

/// The map ends with the legend and the number of all events.
pub proof fn law_map_ends_with_the_legend(s: PoolView, es: Seq<EreportView>, w: nat, i: int)
    requires
        0 <= i < map_heats(s, es, w).len(),
    ensures
        ({
            let l = map_lines(s, es, w);
            let n = map_heats(s, es, w).len() as int;
            &&& l.len() == n + 2
            &&& l[i] == heat_spans(map_heats(s, es, w)[i], map_columns(w).0, map_columns(w).1)
            &&& l[n].len() == 1
            &&& l[n + 1].len() == 1
            &&& l[n + 1][0].text == "ereports(2min): "@ + decimal(es.len())
        }),
{
}

/// The line of a vdev in the report reads its name, two blanks to the right for each
/// level, its state in brackets and its counters.
pub proof fn law_vdev_report_reads(row: VdevRow, depth: nat)
    ensures
        vdev_report(row, depth) == "vdev: "@ + Seq::new(2 * depth, |i: int| ' ') + row.name + " ["@
            + state_word(row.state) + "]"@ + crate::app::frame::counters_text(row),
{
    assert(crate::text::repeat(' ', 2 * depth) =~= Seq::new(2 * depth, |i: int| ' '));
}

/// The report reads: the pool, the scan, whether a retry is wanted, every vdev as the
/// walk meets it, and the number of events.
pub proof fn law_report_reads(s: PoolView, n: nat, i: int)
    ensures
        ({
            let r = report(s, n);
            let w = walk(s.root, 0);
            let k = r.len() - 1 - w.len();
            &&& r[0] == "pool: "@ + s.name
            &&& s.scan is None ==> k == 3 && r[1] == "scan: none"@
            &&& s.scan matches Some(scan) ==> {
                &&& scan.func is Resilver && scan.state is Scanning ==> r[1] == "scan: "@
                    + "Resilver"@ + "/"@ + "Scanning"@ + " errors="@ + decimal(scan.errors as nat)
                &&& scan.func is Scrub && scan.state is Finished ==> r[1] == "scan: "@ + "Scrub"@
                    + "/"@ + "Finished"@ + " errors="@ + decimal(scan.errors as nat)
                &&& scan.func is ErrorScrub && scan.state is Canceled ==> r[1] == "scan: "@
                    + "ErrorScrub"@ + "/"@ + "Canceled"@ + " errors="@ + decimal(
                    scan.errors as nat,
                )
                &&& scan.state is Idle && scan.func is Resilver ==> r[1] == "scan: "@ + "Resilver"@
                    + "/"@ + "Idle"@ + " errors="@ + decimal(scan.errors as nat)
                &&& progress_ratio(scan) is None && scan.to_examine == 0 ==> k == 3
                &&& progress_ratio(scan) is Some && scan.to_examine == 0 ==> k == 4 && r[2]
                    == "progress: "@ + percent_text(progress_ratio(scan))
                &&& progress_ratio(scan) is None && scan.to_examine > 0 ==> k == 4 && r[2]
                    == "progress: "@ + fraction_text(scan.examined, scan.to_examine)
                &&& progress_ratio(scan) is Some && scan.to_examine > 0 ==> k == 4 && r[2]
                    == "progress: "@ + (percent_text(progress_ratio(scan)) + "  "@ + fraction_text(
                    scan.examined,
                    scan.to_examine,
                ))
            }
            &&& wants_retry(s) ==> r[k - 1] == "retry_needed: "@ + "true"@
            &&& !wants_retry(s) ==> r[k - 1] == "retry_needed: "@ + "false"@
            &&& 0 <= i < w.len() ==> r[k + i] == vdev_report(w[i].node.row, w[i].depth)
            &&& r.last() == "ereports: "@ + decimal(n)
        }),
{
    law_report_follows_the_walk(s.root, 0);
    let w = walk(s.root, 0);
    let r = report(s, n);
    if let Some(scan) = s.scan {
        crate::ui::law_unknown_is_omitted(
            progress_ratio(scan),
            24,
            scan.examined,
            scan.to_examine,
        );
        let label = percent_text(progress_ratio(scan));
        let bytes = fraction_text(scan.examined, scan.to_examine);
        if label.len() == 0 {
            assert(label + bytes =~= bytes);
        }
        if bytes.len() == 0 {
            assert(label + bytes =~= label);
        }
        reveal_strlit("  ");
    }
    if 0 <= i < w.len() {
        let k = r.len() - 1 - w.len();
        assert(r[k + i] == tree_report(s.root, 0)[i]);
    }
}

/// A pool whose device names are ASCII is always drawn; and where nothing is drawn,
/// some device has a name that cannot be shortened.
pub proof fn law_ascii_pools_are_drawn(
    areas: Areas,
    s: PoolView,
    es: Seq<EreportView>,
    ctx: Option<CtxView>,
    tree_off: nat,
    map_off: nat,
)
    ensures
        (forall|i: int, k: int|
            0 <= i < leaf_names(s.root).len() && 0 <= k < leaf_names(s.root)[i].len() ==> (
            #[trigger] leaf_names(s.root)[i][k] as u32) < 128) ==> rendered(
            areas,
            s,
            es,
            ctx,
            tree_off,
            map_off,
        ) == Some(composed(areas, s, es, ctx, tree_off, map_off)),
        rendered(areas, s, es, ctx, tree_off, map_off) is None ==> exists|i: int, w: nat|
            0 <= i < leaf_names(s.root).len() && w > 0 && #[trigger] short_name(
                leaf_names(s.root)[i],
                w,
            ) is None,
{
    let names = leaf_names(s.root);
    let inner_w = inside(areas.map.width);
    let w = at_least_one(map_columns(inner_w).0);
    if forall|i: int, k: int|
        0 <= i < names.len() && 0 <= k < names[i].len() ==> (#[trigger] names[i][k] as u32) < 128 {
        assert forall|i: int| 0 <= i < names.len() implies short_name(
            #[trigger] names[i],
            w,
        ) is Some by {
            assert forall|k: int| 0 <= k < names[i].len() implies (
            #[trigger] names[i][k] as u32) < 128 by {}
            law_ascii_names_can_be_shortened(names[i], w);
        }
        assert(names_fit(s, inner_w));
    }
    if !names_fit(s, inner_w) {
        let i = choose|i: int|
            0 <= i < names.len() && short_name(#[trigger] names[i], w) is None;
        assert(short_name(names[i], w) is None);
    }
}

/// How high the parts of a frame are: four lines of header, five with tabs, seven of
/// footer, and the panels have the rest, six lines at least, however low the screen
/// is.
pub proof fn law_heights_of_a_frame(areas: Areas, screen: Area, has_ctx: bool)
    requires
        placed(areas, screen, has_ctx),
        screen.x + screen.width <= u16::MAX,
        screen.y + screen.height <= u16::MAX,
    ensures
        screen.height >= 18 && has_ctx ==> areas.head.height == 5 && areas.foot.height == 7
            && areas.tree.height == screen.height - 12,
        screen.height >= 17 && !has_ctx ==> areas.head.height == 4 && areas.foot.height == 7
            && areas.tree.height == screen.height - 11,
        6 <= screen.height < 17 ==> areas.tree.height == 6,
        screen.height < 6 ==> areas.tree.height == screen.height,
        areas.map.height == areas.tree.height,
        areas.head.height + areas.tree.height + areas.foot.height == screen.height,
        areas.tree.width + areas.map.width == screen.width,
        2 * areas.tree.width * 50 <= 55 * screen.width + 50,
        55 * screen.width <= 2 * areas.tree.width * 50 + 50,
        areas.head.width == screen.width,
        areas.foot.width == screen.width,
{
}

/// The texts that every frame shows.
pub proof fn law_texts_of_a_frame(
    areas: Areas,
    s: PoolView,
    es: Seq<EreportView>,
    ctx: Option<CtxView>,
    tree_off: nat,
    map_off: nat,
)
    ensures
        ({
            let f = composed(areas, s, es, ctx, tree_off, map_off);
            let total = walk(s.root, 0).len();
            &&& total + 2 <= areas.tree.height ==> f.tree.title.text == "vdev tree"@
            &&& map_lines(s, es, inside(areas.map.width)).len() + 2 <= areas.map.height
                ==> f.map.title.text == "error surface map"@
            &&& f.footer[0].text
                == "q quit · ←/→/Tab pool · 1-9 jump · h/l panel · ↑/↓ scroll · read-only"@
            &&& legend_text() == "density: · 0  ░ 1-2  ▒ 3-6  ▓ 7-15  █ 16+ events/2min"@
        }),
{
    law_tree_panel_follows_the_walk(s.root, 0);
}

} // verus!
