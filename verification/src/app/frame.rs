//! What one frame of the screen shows, without a terminal.

use crate::decimal::{fixed_text, push_fixed};
use crate::layout::{
    are_shares, are_sizes, minima_count, room, share, share_cells, side_by_side, split, Area, Axis,
    Part,
};
use crate::model::{
    forest, lemma_children, progress_ratio, reports, Ereport, EreportView, PoolHealth, PoolSnapshot,
    PoolView, ScanFunc, ScanState, VdevInfo, VdevNode, VdevRow, VdevState,
};
use crate::number::{decimal, push_decimal};
use crate::style::{
    in_bold, in_color, line_views, raw, spans, styled, Color, Line, Span, SpanView, Style,
};
use crate::surface::{
    density_color, device_heat_list, device_heat_row_sized, device_heats, heat_cell_color,
    heat_legend, heats, legend_text, reports_of, short_name, shortened, strip_text, worst_first,
    DeviceHeat, HeatView,
};
use crate::text::{chars, push_repeat, repeat, strings};
use crate::ui::{
    badge, border_style, bytes_fraction, bytes_text, fmt_bytes, fraction_text, gauge_text, markers,
    panel_border_style, panel_title_style, retry_badge, rpm_gauge, tab_look, tab_markers, tab_style,
    title_style, PANEL_MAP, PANEL_TREE,
};
use vstd::prelude::*;

verus! {

/// Per-frame view context: what the renderer needs to know about the
/// interactive session.
#[derive(Debug, Clone, Copy)]
pub struct ViewCtx<'a> {
    /// Pool tab bar contents in display order.
    pub pools: &'a [String],
    /// Index of the displayed pool tab.
    pub active: usize,
    /// Per-pool flags of a scan in progress.
    pub scanning: &'a [bool],
    /// Per-pool health grades.
    pub health: &'a [PoolHealth],
    /// Focused body panel.
    pub panel_focus: usize,
}

/// What a view context says.
pub struct CtxView {
    pub pools: Seq<Seq<char>>,
    pub active: usize,
    pub scanning: Seq<bool>,
    pub health: Seq<PoolHealth>,
    pub panel_focus: usize,
}

impl<'a> View for ViewCtx<'a> {
    type V = CtxView;

    open spec fn view(&self) -> CtxView {
        CtxView {
            pools: strings(self.pools@),
            active: self.active,
            scanning: self.scanning@,
            health: self.health@,
            panel_focus: self.panel_focus,
        }
    }
}

/// What a view context that may be missing says.
pub open spec fn ctx_view(ctx: Option<&ViewCtx>) -> Option<CtxView> {
    match ctx {
        Some(c) => Some(c@),
        None => None,
    }
}

/// The grade of a tab: healthy where none is known.
pub open spec fn tab_grade(c: CtxView, i: int) -> PoolHealth {
    if 0 <= i < c.health.len() {
        c.health[i]
    } else {
        PoolHealth::Healthy
    }
}

/// Whether a tab shows a running scan.
pub open spec fn tab_scanning(c: CtxView, i: int) -> bool {
    0 <= i < c.scanning.len() && c.scanning[i]
}

/// The label of a tab: its number, its pool and its markers.
pub open spec fn tab_label(c: CtxView, i: int) -> Seq<char> {
    "["@ + decimal((i + 1) as nat) + ": "@ + c.pools[i] + markers(
        tab_grade(c, i),
        tab_scanning(c, i),
    ) + "]"@
}

/// The first `n` tabs, with a blank between two.
pub open spec fn tabs(c: CtxView, n: int) -> Seq<SpanView>
    decreases n,
{
    if n <= 0 {
        Seq::empty()
    } else {
        let i = n - 1;
        let before = if i > 0 {
            tabs(c, i).push(raw(" "@))
        } else {
            Seq::empty()
        };
        before.push(
            styled(
                tab_label(c, i),
                tab_look(tab_grade(c, i), tab_scanning(c, i), i == c.active),
            ),
        )
    }
}

/// The tab bar: every pool, and which of how many is shown.
pub open spec fn tab_bar(c: CtxView) -> Seq<SpanView> {
    (seq![styled(" pools: "@, in_color(Color::DarkGray))] + tabs(c, c.pools.len() as int)).push(
        styled(
            "  "@ + decimal((c.active + 1) as nat) + "/"@ + decimal(c.pools.len()),
            in_color(Color::DarkGray),
        ),
    )
}

fn tab_bar_line(ctx: &ViewCtx) -> (l: Line)
    requires
        ctx.active < usize::MAX,
    ensures
        l@ == tab_bar(ctx@),
{
    let ghost c = ctx@;
    let mut l = Line::new();
    l.styled(" pools: ".to_owned(), Style::in_color(Color::DarkGray));
    let ghost head = l@;
    let mut i: usize = 0;
    assert(head + tabs(c, 0) == head);
    while i < ctx.pools.len()
        invariant
            i <= ctx.pools@.len(),
            c == ctx@,
            l@ == head + tabs(c, i as int),
        decreases ctx.pools@.len() - i,
    {
        if i > 0 {
            l.raw(" ".to_owned());
        }
        let h = if i < ctx.health.len() {
            ctx.health[i]
        } else {
            PoolHealth::Healthy
        };
        let scanning: bool = i < ctx.scanning.len() && ctx.scanning[i];
        let mut label = "[".to_owned();
        push_decimal(&mut label, i as u128 + 1);
        label.append(": ");
        label.append(ctx.pools[i].as_str());
        let marks = tab_markers(h, scanning);
        label.append(marks.as_str());
        label.append("]");
        proof {
            assert(c.pools[i as int] == ctx.pools@[i as int]@);
            assert(label@ == tab_label(c, i as int));
        }
        l.styled(label, tab_style(h, scanning, i == ctx.active));
        assert(l@ == head + tabs(c, i + 1));
        i += 1;
    }
    let mut counter = "  ".to_owned();
    push_decimal(&mut counter, ctx.active as u128 + 1);
    counter.append("/");
    push_decimal(&mut counter, ctx.pools.len() as u128);
    l.styled(counter, Style::in_color(Color::DarkGray));
    assert(l@ == tab_bar(c));
    l
}

/// The name of a kind of scan.
pub open spec fn func_text(func: ScanFunc) -> Seq<char> {
    match func {
        ScanFunc::Resilver => "RESILVER"@,
        ScanFunc::Scrub => "SCRUB"@,
        ScanFunc::ErrorScrub => "ERROR SCRUB"@,
    }
}

/// The name of a state of a scan.
pub open spec fn scan_state_text(state: ScanState) -> Seq<char> {
    match state {
        ScanState::Idle => "IDLE"@,
        ScanState::Scanning => "SCANNING"@,
        ScanState::Finished => "FINISHED"@,
        ScanState::Canceled => "CANCELED"@,
    }
}

/// The badge as it stands in the line on the scan.
pub open spec fn badge_span(s: PoolView) -> SpanView {
    match badge(s) {
        Some((text, color)) => styled(" ["@ + text + "]"@, in_bold(color)),
        None => raw(""@),
    }
}

/// The line on the scan. It carries the badge whether or not there is a scan: a
/// faulted disk asks for a replacement without one, too.
pub open spec fn scan_spans(s: PoolView) -> Seq<SpanView> {
    match s.scan {
        Some(scan) => seq![
            styled(func_text(scan.func) + " "@, in_bold(Color::Cyan)),
            raw(scan_state_text(scan.state)),
            badge_span(s),
            raw(
                "  errors="@ + decimal(scan.errors as nat) + "  examined="@ + bytes_text(
                    scan.examined,
                ),
            ),
        ],
        None => seq![
            styled("no scan record (idle)"@, in_color(Color::DarkGray)),
            badge_span(s),
        ],
    }
}

fn badge_in_line(snapshot: &PoolSnapshot) -> (r: Span)
    ensures
        r@ == badge_span(snapshot@),
{
    match retry_badge(snapshot) {
        Some((t, c)) => {
            let mut text = " [".to_owned();
            text.append(t);
            text.append("]");
            Span { text, style: Style::in_bold(c) }
        },
        None => Span { text: "".to_owned(), style: Style::plain() },
    }
}

fn scan_line(snapshot: &PoolSnapshot) -> (l: Line)
    ensures
        l@ == scan_spans(snapshot@),
{
    let mut l = Line::new();
    match &snapshot.scan {
        Some(scan) => {
            let mut func = match scan.func {
                ScanFunc::Resilver => "RESILVER",
                ScanFunc::Scrub => "SCRUB",
                ScanFunc::ErrorScrub => "ERROR SCRUB",
            }.to_owned();
            func.append(" ");
            l.styled(func, Style::in_bold(Color::Cyan));
            let state = match scan.state {
                ScanState::Idle => "IDLE",
                ScanState::Scanning => "SCANNING",
                ScanState::Finished => "FINISHED",
                ScanState::Canceled => "CANCELED",
            };
            l.raw(state.to_owned());
            l.add(badge_in_line(snapshot));
            let mut text = "  errors=".to_owned();
            push_decimal(&mut text, scan.errors as u128);
            text.append("  examined=");
            let examined = fmt_bytes(scan.examined);
            text.append(examined.as_str());
            l.raw(text);
        },
        None => {
            l.styled("no scan record (idle)".to_owned(), Style::in_color(Color::DarkGray));
            l.add(badge_in_line(snapshot));
        },
    }
    assert(l@ =~= scan_spans(snapshot@));
    l
}

/// The gauge of a snapshot.
pub open spec fn pool_gauge(s: PoolView) -> Seq<char> {
    match s.scan {
        Some(scan) => gauge_text(progress_ratio(scan), 24),
        None => Seq::empty(),
    }
}

/// The byte fraction of a snapshot.
pub open spec fn pool_fraction(s: PoolView) -> Seq<char> {
    match s.scan {
        Some(scan) => fraction_text(scan.examined, scan.to_examine),
        None => Seq::empty(),
    }
}

/// The line on the pool: its name, and its gauge and byte fraction as far as
/// they are known.
pub open spec fn pool_spans(s: PoolView) -> Seq<SpanView> {
    let gauge = pool_gauge(s);
    let bytes = pool_fraction(s);
    seq![raw("pool: "@ + s.name)] + (if gauge.len() > 0 {
        seq![raw("  "@), styled(gauge, in_bold(Color::Cyan))]
    } else {
        Seq::empty()
    }) + (if bytes.len() > 0 {
        seq![raw("  "@), raw(bytes)]
    } else {
        Seq::empty()
    })
}

fn pool_line(snapshot: &PoolSnapshot) -> (l: Line)
    ensures
        l@ == pool_spans(snapshot@),
{
    let mut l = Line::new();
    let mut name = "pool: ".to_owned();
    name.append(snapshot.name.as_str());
    l.raw(name);
    let (gauge, bytes) = match &snapshot.scan {
        Some(scan) => (
            rpm_gauge(scan.progress(), 24),
            bytes_fraction(scan.examined, scan.to_examine),
        ),
        None => (String::new(), String::new()),
    };
    proof {
        assert(gauge@ =~= pool_gauge(snapshot@));
        assert(bytes@ =~= pool_fraction(snapshot@));
    }
    let ghost first = l@;
    if gauge.as_str().unicode_len() > 0 {
        l.raw("  ".to_owned());
        l.styled(gauge, Style::in_bold(Color::Cyan));
    }
    if bytes.as_str().unicode_len() > 0 {
        l.raw("  ".to_owned());
        l.raw(bytes);
    }
    assert(l@ =~= pool_spans(snapshot@));
    l
}

/// The header: the tab bar, where there is a context, the pool and the scan.
pub open spec fn header_lines(s: PoolView, ctx: Option<CtxView>) -> Seq<Seq<SpanView>> {
    (match ctx {
        Some(c) => seq![tab_bar(c)],
        None => Seq::empty(),
    }) + seq![pool_spans(s), scan_spans(s)]
}

fn header(snapshot: &PoolSnapshot, ctx: Option<&ViewCtx>) -> (r: Vec<Line>)
    requires
        ctx matches Some(c) ==> c.active < usize::MAX,
    ensures
        line_views(r@) == header_lines(snapshot@, ctx_view(ctx)),
{
    let mut r: Vec<Line> = Vec::new();
    if let Some(c) = ctx {
        r.push(tab_bar_line(c));
    }
    r.push(pool_line(snapshot));
    r.push(scan_line(snapshot));
    assert(line_views(r@) =~= header_lines(snapshot@, ctx_view(ctx)));
    r
}

/// The name of a vdev state.
pub open spec fn state_text(state: VdevState) -> Seq<char> {
    match state {
        VdevState::Online => "ONLINE"@,
        VdevState::Degraded => "DEGRADED"@,
        VdevState::Faulted => "FAULTED"@,
        VdevState::Offline => "OFFLINE"@,
        VdevState::Removed => "REMOVED"@,
        VdevState::Unavail => "UNAVAIL"@,
    }
}

/// The color of a vdev state.
pub open spec fn state_color(state: VdevState) -> Color {
    match state {
        VdevState::Online => Color::Green,
        VdevState::Degraded => Color::Yellow,
        VdevState::Faulted => Color::Red,
        VdevState::Offline => Color::DarkGray,
        VdevState::Removed => Color::Red,
        VdevState::Unavail => Color::Red,
    }
}

/// The name of a vdev state.
pub fn state_name(state: VdevState) -> (r: &'static str)
    ensures
        r@ == state_text(state),
{
    match state {
        VdevState::Online => "ONLINE",
        VdevState::Degraded => "DEGRADED",
        VdevState::Faulted => "FAULTED",
        VdevState::Offline => "OFFLINE",
        VdevState::Removed => "REMOVED",
        VdevState::Unavail => "UNAVAIL",
    }
}

fn state_span(state: VdevState) -> (s: Span)
    ensures
        s@ == styled(state_text(state), in_bold(state_color(state))),
{
    let color = match state {
        VdevState::Online => Color::Green,
        VdevState::Degraded => Color::Yellow,
        VdevState::Faulted => Color::Red,
        VdevState::Offline => Color::DarkGray,
        VdevState::Removed => Color::Red,
        VdevState::Unavail => Color::Red,
    };
    Span { text: state_name(state).to_owned(), style: Style::in_bold(color) }
}

/// The error counters of a vdev, where one of them is not zero. All-zero
/// counters carry no information.
pub open spec fn counters_text(row: VdevRow) -> Seq<char> {
    if row.read_err > 0 || row.write_err > 0 || row.checksum_err > 0 {
        "  R:"@ + decimal(row.read_err as nat) + " W:"@ + decimal(row.write_err as nat) + " C:"@
            + decimal(row.checksum_err as nat)
    } else {
        Seq::empty()
    }
}

/// Appends the error counters of a vdev.
pub fn push_counters(out: &mut String, vdev: &VdevInfo)
    ensures
        final(out)@ == old(out)@ + counters_text(vdev.row()),
{
    let ghost before = out@;
    if vdev.read_err > 0 || vdev.write_err > 0 || vdev.checksum_err > 0 {
        out.append("  R:");
        push_decimal(out, vdev.read_err as u128);
        out.append(" W:");
        push_decimal(out, vdev.write_err as u128);
        out.append(" C:");
        push_decimal(out, vdev.checksum_err as u128);
    }
    assert(out@ =~= before + counters_text(vdev.row()));
}

/// The line of one vdev, so many levels below the root.
pub open spec fn vdev_spans(row: VdevRow, depth: nat) -> Seq<SpanView> {
    seq![
        raw(repeat(' ', 2 * depth) + row.name),
        raw("  "@),
        styled(state_text(row.state), in_bold(state_color(row.state))),
    ] + (if counters_text(row).len() > 0 {
        seq![raw(counters_text(row))]
    } else {
        Seq::empty()
    }) + (match row.rebuild_pct {
        Some(pct) => seq![styled("  "@ + fixed_text(pct) + "%"@, in_bold(Color::Cyan))],
        None => Seq::empty(),
    })
}

/// The lines of a vdev tree, each node before those below it.
pub open spec fn tree_lines(n: VdevNode, depth: nat) -> Seq<Seq<SpanView>>
    decreases n,
{
    seq![vdev_spans(n.row, depth)] + forest_lines(n.children, depth + 1)
}

/// The lines of some vdev trees.
pub open spec fn forest_lines(f: Seq<VdevNode>, depth: nat) -> Seq<Seq<SpanView>>
    decreases f,
{
    if f.len() == 0 {
        Seq::empty()
    } else {
        forest_lines(f.subrange(0, f.len() - 1), depth) + tree_lines(f[f.len() - 1], depth)
    }
}

fn vdev_line(vdev: &VdevInfo, pad: &str, Ghost(depth): Ghost<nat>) -> (l: Line)
    requires
        pad@ == repeat(' ', 2 * depth),
    ensures
        l@ == vdev_spans(vdev.row(), depth),
{
    let mut l = Line::new();
    let mut name = pad.to_owned();
    name.append(vdev.name.as_str());
    l.raw(name);
    l.raw("  ".to_owned());
    l.add(state_span(vdev.state));
    let mut counters = String::new();
    push_counters(&mut counters, vdev);
    assert(counters@ =~= counters_text(vdev.row()));
    if counters.as_str().unicode_len() > 0 {
        l.raw(counters);
    }
    if let Some(pct) = vdev.rebuild_pct {
        let mut text = "  ".to_owned();
        push_fixed(&mut text, pct);
        text.append("%");
        l.styled(text, Style::in_bold(Color::Cyan));
    }
    assert(l@ =~= vdev_spans(vdev.row(), depth));
    l
}

fn vdev_lines(vdev: &VdevInfo, pad: &str, out: &mut Vec<Line>, Ghost(depth): Ghost<nat>)
    requires
        pad@ == repeat(' ', 2 * depth),
    ensures
        line_views(final(out)@) == line_views(old(out)@) + tree_lines(vdev@, depth),
    decreases vdev,
{
    let ghost before = line_views(out@);
    let ghost n = vdev@;
    proof {
        lemma_children(*vdev);
    }
    out.push(vdev_line(vdev, pad, Ghost(depth)));
    let mut deeper = pad.to_owned();
    deeper.push(' ');
    deeper.push(' ');
    proof {
        assert(deeper@ =~= repeat(' ', 2 * (depth + 1)));
        assert(line_views(out@) =~= before + seq![vdev_spans(n.row, depth)]);
        assert(n.children.subrange(0, 0) =~= Seq::<VdevNode>::empty());
        assert(forest_lines(n.children.subrange(0, 0), depth + 1) =~= Seq::<
            Seq<SpanView>,
        >::empty());
    }
    let mut i: usize = 0;
    while i < vdev.children.len()
        invariant
            i <= vdev.children@.len(),
            n == vdev@,
            n.children == forest(vdev.children@),
            deeper@ == repeat(' ', 2 * (depth + 1)),
            line_views(out@) == before + seq![vdev_spans(n.row, depth)] + forest_lines(
                n.children.subrange(0, i as int),
                depth + 1,
            ),
        decreases vdev.children@.len() - i,
    {
        let ghost so_far = line_views(out@);
        vdev_lines(&vdev.children[i], deeper.as_str(), out, Ghost(depth + 1));
        proof {
            let part = n.children.subrange(0, i + 1);
            assert(part.subrange(0, part.len() - 1) == n.children.subrange(0, i as int));
            assert(part[part.len() - 1] == vdev.children@[i as int]@);
            assert(before + seq![vdev_spans(n.row, depth)] + (forest_lines(
                n.children.subrange(0, i as int),
                depth + 1,
            ) + tree_lines(part[part.len() - 1], depth + 1)) == so_far + tree_lines(
                part[part.len() - 1],
                depth + 1,
            ));
        }
        i += 1;
    }
    proof {
        assert(n.children.subrange(0, n.children.len() as int) == n.children);
        assert(before + (seq![vdev_spans(n.row, depth)] + forest_lines(n.children, depth + 1))
            == before + seq![vdev_spans(n.row, depth)] + forest_lines(n.children, depth + 1));
    }
}

/// The devices of a tree: its nodes without children, in order.
pub open spec fn leaf_names(n: VdevNode) -> Seq<Seq<char>>
    decreases n,
{
    if n.children.len() == 0 {
        seq![n.row.name]
    } else {
        all_leaf_names(n.children)
    }
}

/// The devices of some trees.
pub open spec fn all_leaf_names(f: Seq<VdevNode>) -> Seq<Seq<char>>
    decreases f,
{
    if f.len() == 0 {
        Seq::empty()
    } else {
        all_leaf_names(f.subrange(0, f.len() - 1)) + leaf_names(f[f.len() - 1])
    }
}

fn collect_leaves(vdev: &VdevInfo, out: &mut Vec<String>)
    ensures
        strings(final(out)@) == strings(old(out)@) + leaf_names(vdev@),
    decreases vdev,
{
    let ghost before = strings(out@);
    let ghost n = vdev@;
    proof {
        lemma_children(*vdev);
    }
    if vdev.children.len() == 0 {
        out.push(vdev.name.clone());
        assert(strings(out@) =~= before + seq![n.row.name]);
        return ;
    }
    proof {
        assert(n.children.subrange(0, 0) =~= Seq::<VdevNode>::empty());
        assert(before + all_leaf_names(n.children.subrange(0, 0)) =~= before);
    }
    let mut i: usize = 0;
    while i < vdev.children.len()
        invariant
            i <= vdev.children@.len(),
            n == vdev@,
            n.children == forest(vdev.children@),
            strings(out@) == before + all_leaf_names(n.children.subrange(0, i as int)),
        decreases vdev.children@.len() - i,
    {
        let ghost so_far = strings(out@);
        collect_leaves(&vdev.children[i], out);
        proof {
            let part = n.children.subrange(0, i + 1);
            assert(part.subrange(0, part.len() - 1) == n.children.subrange(0, i as int));
            assert(part[part.len() - 1] == vdev.children@[i as int]@);
            assert(before + (all_leaf_names(n.children.subrange(0, i as int)) + leaf_names(
                part[part.len() - 1],
            )) == so_far + leaf_names(part[part.len() - 1]));
        }
        i += 1;
    }
    assert(n.children.subrange(0, n.children.len() as int) == n.children);
}

/// The columns of the map in a panel of the given inner width: how wide the
/// name is, and how many cells the strip has. Narrow panels lose the strip
/// first, then the name.
pub open spec fn map_columns(inner_w: nat) -> (nat, nat) {
    if inner_w >= 70 {
        (28, at_most((inner_w - 28 - 2 - 9) as nat, 40))
    } else if inner_w >= 44 {
        (20, at_most((inner_w - 20 - 2 - 9) as nat, 40))
    } else if inner_w >= 28 {
        ((inner_w - 11) as nat, 0)
    } else {
        (0, 0)
    }
}

/// The lesser of two numbers.
pub open spec fn at_most(n: nat, limit: nat) -> nat {
    if n < limit {
        n
    } else {
        limit
    }
}

/// At least one.
pub open spec fn at_least_one(n: nat) -> nat {
    if n == 0 {
        1
    } else {
        n
    }
}

fn map_columns_of(inner_w: usize) -> (r: (usize, usize))
    requires
        inner_w <= u16::MAX,
    ensures
        (r.0 as nat, r.1 as nat) == map_columns(inner_w as nat),
        r.0 <= u16::MAX,
{
    if inner_w >= 70 {
        let room: usize = inner_w - 28 - 2 - 9;
        (
            28,
            if room < 40 {
                room
            } else {
                40
            },
        )
    } else if inner_w >= 44 {
        let room: usize = inner_w - 20 - 2 - 9;
        (
            20,
            if room < 40 {
                room
            } else {
                40
            },
        )
    } else if inner_w >= 28 {
        (inner_w - 11, 0)
    } else {
        (0, 0)
    }
}

/// `s` with blanks behind it up to a width in characters.
pub open spec fn padded_right(s: Seq<char>, width: nat) -> Seq<char> {
    if s.len() < width {
        s + repeat(' ', (width - s.len()) as nat)
    } else {
        s
    }
}

/// `s` with blanks before it up to a width in characters.
pub open spec fn padded_left(s: Seq<char>, width: nat) -> Seq<char> {
    if s.len() < width {
        repeat(' ', (width - s.len()) as nat) + s
    } else {
        s
    }
}

/// One span for each density character.
pub open spec fn strip_spans(strip: Seq<char>) -> Seq<SpanView> {
    Seq::new(strip.len(), |i: int| styled(seq![strip[i]], in_color(density_color(strip[i]))))
}

/// The row of one device: name, strip and count, as far as there is room.
pub open spec fn heat_spans(d: HeatView, name_w: nat, strip_cols: nat) -> Seq<SpanView> {
    let name = short_name(d.name, at_least_one(name_w))->Some_0;
    (if name_w > 0 {
        seq![styled(padded_right(name, name_w), in_color(Color::DarkGray)), raw(" "@)]
    } else {
        Seq::empty()
    }) + (if strip_cols > 0 {
        strip_spans(strip_text(d.buckets)).push(raw(" "@))
    } else {
        Seq::empty()
    }) + seq![
        styled(padded_left(decimal(d.total as nat), 4) + " ev"@, in_color(Color::Yellow)),
    ]
}

fn heat_line(d: &DeviceHeat, name_w: usize, strip_cols: usize) -> (l: Line)
    requires
        short_name(d@.name, at_least_one(name_w as nat)) is Some,
    ensures
        l@ == heat_spans(d@, name_w as nat, strip_cols as nat),
{
    let width: usize = if name_w == 0 {
        1
    } else {
        name_w
    };
    let (name, strip, count) = device_heat_row_sized(d, width);
    let mut l = Line::new();
    if name_w > 0 {
        let n: usize = name.as_str().unicode_len();
        let ghost short = name@;
        let mut padded = name;
        if n < name_w {
            push_repeat(&mut padded, ' ', name_w - n);
        }
        assert(padded@ =~= padded_right(short, name_w as nat));
        l.styled(padded, Style::in_color(Color::DarkGray));
        l.raw(" ".to_owned());
    }
    let ghost first = l@;
    if strip_cols > 0 {
        let cells: Vec<char> = chars(strip.as_str());
        let mut i: usize = 0;
        assert(first + strip_spans(cells@).take(0) =~= first);
        while i < cells.len()
            invariant
                i <= cells@.len(),
                l@ == first + strip_spans(cells@).take(i as int),
            decreases cells@.len() - i,
        {
            let mut text = String::new();
            text.push(cells[i]);
            assert(text@ =~= seq![cells@[i as int]]);
            l.styled(text, Style::in_color(heat_cell_color(cells[i])));
            proof {
                assert(strip_spans(cells@).take(i + 1) == strip_spans(cells@).take(i as int).push(
                    strip_spans(cells@)[i as int],
                ));
                assert(l@ =~= first + strip_spans(cells@).take(i + 1));
            }
            i += 1;
        }
        assert(strip_spans(cells@).take(cells@.len() as int) == strip_spans(cells@));
        l.raw(" ".to_owned());
    }
    let mut text = String::new();
    let n: usize = count.as_str().unicode_len();
    if n < 4 {
        push_repeat(&mut text, ' ', 4 - n);
    }
    text.append(count.as_str());
    text.append(" ev");
    assert(text@ =~= padded_left(decimal(d@.total as nat), 4) + " ev"@);
    l.styled(text, Style::in_color(Color::Yellow));
    assert(l@ =~= heat_spans(d@, name_w as nat, strip_cols as nat));
    l
}

/// The strips that the map shows: one for each device, worst first.
pub open spec fn map_heats(s: PoolView, es: Seq<EreportView>, inner_w: nat) -> Seq<HeatView> {
    worst_first(device_heats(es, leaf_names(s.root), map_columns(inner_w).1))
}

/// The lines of the map: the devices, the legend and the number of events.
pub open spec fn map_lines(s: PoolView, es: Seq<EreportView>, inner_w: nat) -> Seq<Seq<SpanView>> {
    let (name_w, strip_cols) = map_columns(inner_w);
    let rows = map_heats(s, es, inner_w);
    Seq::new(rows.len(), |i: int| heat_spans(rows[i], name_w, strip_cols)) + seq![
        seq![styled(legend_text(), in_color(Color::DarkGray))],
        seq![styled("ereports(2min): "@ + decimal(es.len()), in_color(Color::Yellow))],
    ]
}

/// Whether every device name of a pool can be shortened to the width that a map
/// of the given inner width leaves for it. A name whose characters are all ASCII
/// always can.
pub open spec fn names_fit(s: PoolView, inner_w: nat) -> bool {
    forall|i: int|
        0 <= i < leaf_names(s.root).len() ==> short_name(
            #[trigger] leaf_names(s.root)[i],
            at_least_one(map_columns(inner_w).0),
        ) is Some
}

/// Whether every device name of a snapshot can be shortened.
fn names_fit_of(snapshot: &PoolSnapshot, inner_w: usize) -> (r: bool)
    requires
        inner_w <= u16::MAX,
    ensures
        r == names_fit(snapshot@, inner_w as nat),
{
    let (name_w, _) = map_columns_of(inner_w);
    let width: usize = if name_w == 0 {
        1
    } else {
        name_w
    };
    let mut devices: Vec<String> = Vec::new();
    assert(strings(devices@) =~= Seq::<Seq<char>>::empty());
    collect_leaves(&snapshot.root, &mut devices);
    let ghost names = leaf_names(snapshot@.root);
    assert(strings(devices@) =~= names);
    let mut i: usize = 0;
    while i < devices.len()
        invariant
            i <= devices@.len(),
            strings(devices@) == names,
            names == leaf_names(snapshot@.root),
            width == at_least_one(map_columns(inner_w as nat).0),
            forall|k: int| 0 <= k < i ==> short_name(#[trigger] names[k], width as nat) is Some,
        decreases devices@.len() - i,
    {
        assert(names[i as int] == devices@[i as int]@);
        if shortened(devices[i].as_str(), width).is_none() {
            return false;
        }
        i += 1;
    }
    true
}

fn map_panel_lines(snapshot: &PoolSnapshot, ereports: &[Ereport], inner_w: usize) -> (r: Vec<Line>)
    requires
        inner_w <= u16::MAX,
        ereports@.len() <= u32::MAX,
        names_fit(snapshot@, inner_w as nat),
    ensures
        line_views(r@) == map_lines(snapshot@, reports(ereports@), inner_w as nat),
{
    let ghost s = snapshot@;
    let ghost es = reports(ereports@);
    let (name_w, strip_cols) = map_columns_of(inner_w);
    let mut devices: Vec<String> = Vec::new();
    assert(strings(devices@) =~= Seq::<Seq<char>>::empty());
    collect_leaves(&snapshot.root, &mut devices);
    assert(strings(devices@) =~= leaf_names(s.root));
    let mut refs: Vec<&Ereport> = Vec::new();
    let mut k: usize = 0;
    while k < ereports.len()
        invariant
            k <= ereports@.len(),
            refs@.len() == k,
            forall|j: int| 0 <= j < k ==> #[trigger] refs@[j] == ereports@[j],
        decreases ereports@.len() - k,
    {
        refs.push(&ereports[k]);
        k += 1;
    }
    assert(reports_of(refs@) =~= es);
    let list: Vec<DeviceHeat> = device_heat_list(refs.as_slice(), devices.as_slice(), strip_cols);
    let ghost rows = map_heats(s, es, inner_w as nat);
    assert(heats(list@) == rows);
    let mut r: Vec<Line> = Vec::new();
    let mut i: usize = 0;
    proof {
        lemma_map_names(s, es, inner_w as nat);
    }
    while i < list.len()
        invariant
            i <= list@.len(),
            heats(list@) == rows,
            rows == map_heats(s, es, inner_w as nat),
            (name_w as nat, strip_cols as nat) == map_columns(inner_w as nat),
            forall|j: int|
                0 <= j < rows.len() ==> short_name(
                    (#[trigger] rows[j]).name,
                    at_least_one(name_w as nat),
                ) is Some,
            r@.len() == i,
            forall|j: int|
                0 <= j < i ==> (#[trigger] r@[j])@ == heat_spans(
                    rows[j],
                    name_w as nat,
                    strip_cols as nat,
                ),
        decreases list@.len() - i,
    {
        assert(rows[i as int] == list@[i as int]@);
        r.push(heat_line(&list[i], name_w, strip_cols));
        i += 1;
    }
    let mut legend = Line::new();
    legend.styled(heat_legend(), Style::in_color(Color::DarkGray));
    r.push(legend);
    let mut text = "ereports(2min): ".to_owned();
    push_decimal(&mut text, ereports.len() as u128);
    let mut count = Line::new();
    count.styled(text, Style::in_color(Color::Yellow));
    r.push(count);
    proof {
        assert(legend@ =~= seq![styled(legend_text(), in_color(Color::DarkGray))]);
        assert(count@ =~= seq![
            styled("ereports(2min): "@ + decimal(es.len()), in_color(Color::Yellow)),
        ]);
        assert(line_views(r@) =~= map_lines(s, es, inner_w as nat));
    }
    r
}

/// The rows of the map carry the names of the devices.
proof fn lemma_map_names(s: PoolView, es: Seq<EreportView>, inner_w: nat)
    requires
        names_fit(s, inner_w),
    ensures
        forall|j: int|
            0 <= j < map_heats(s, es, inner_w).len() ==> short_name(
                (#[trigger] map_heats(s, es, inner_w)[j]).name,
                at_least_one(map_columns(inner_w).0),
            ) is Some,
{
    let all = device_heats(es, leaf_names(s.root), map_columns(inner_w).1);
    let w = at_least_one(map_columns(inner_w).0);
    assert forall|i: int| 0 <= i < all.len() implies short_name(
        (#[trigger] all[i]).name,
        w,
    ) is Some by {
        assert(all[i].name == leaf_names(s.root)[i]);
    }
    lemma_ranked_names(all, w);
}

proof fn lemma_ranked_names(s: Seq<HeatView>, w: nat)
    requires
        forall|i: int| 0 <= i < s.len() ==> short_name((#[trigger] s[i]).name, w) is Some,
    ensures
        forall|i: int|
            0 <= i < worst_first(s).len() ==> short_name(
                (#[trigger] worst_first(s)[i]).name,
                w,
            ) is Some,
{
    broadcast use vstd::seq_lib::group_to_multiset_ensures;

    crate::surface::law_worst_device_first(s);
    let r = worst_first(s);
    assert forall|i: int| 0 <= i < r.len() implies short_name(
        (#[trigger] r[i]).name,
        w,
    ) is Some by {
        assert(r.contains(r[i]));
        assert(r.to_multiset().count(r[i]) > 0);
        assert(s.contains(r[i]));
        let k = s.index_of(r[i]);
        assert(s[k] == r[i]);
    }
}

/// A panel of the body.
#[derive(Debug, PartialEq)]
pub struct Panel {
    pub title: Span,
    pub border: Style,
    /// The lines that are visible.
    pub lines: Vec<Line>,
}

/// What a panel shows.
pub struct PanelView {
    pub title: SpanView,
    pub border: Style,
    pub lines: Seq<Seq<SpanView>>,
}

impl View for Panel {
    type V = PanelView;

    open spec fn view(&self) -> PanelView {
        PanelView { title: self.title@, border: self.border, lines: line_views(self.lines@) }
    }
}

/// The first line that a panel shows: scrolling stops at the last one.
pub open spec fn first_visible(off: nat, total: nat) -> nat {
    if off < total {
        off
    } else if total == 0 {
        0
    } else {
        (total - 1) as nat
    }
}

/// The lines that a panel of the given inner height shows.
pub open spec fn visible(
    lines: Seq<Seq<SpanView>>,
    off: nat,
    inner_h: nat,
) -> Seq<Seq<SpanView>> {
    let from = first_visible(off, lines.len());
    let n = at_most(at_least_one(inner_h), (lines.len() - from) as nat);
    lines.subrange(from as int, (from + n) as int)
}

/// The title of a panel: with the scroll position, where not everything fits.
pub open spec fn panel_title(name: Seq<char>, total: nat, off: nat, inner_h: nat) -> Seq<char> {
    if total > inner_h && inner_h > 0 {
        name + " "@ + decimal(first_visible(off, total) + 1) + "/"@ + decimal(total)
    } else {
        name
    }
}

/// A panel of the body.
pub open spec fn body_panel(
    name: Seq<char>,
    panel: usize,
    panel_focus: usize,
    lines: Seq<Seq<SpanView>>,
    off: nat,
    inner_h: nat,
) -> PanelView {
    PanelView {
        title: styled(
            panel_title(name, lines.len(), off, inner_h),
            title_style(panel_focus, panel),
        ),
        border: border_style(panel_focus, panel),
        lines: visible(lines, off, inner_h),
    }
}

fn body_panel_of(
    name: &str,
    panel: usize,
    panel_focus: usize,
    lines: Vec<Line>,
    off: usize,
    inner_h: usize,
) -> (r: Panel)
    ensures
        r@ == body_panel(
            name@,
            panel,
            panel_focus,
            line_views(lines@),
            off as nat,
            inner_h as nat,
        ),
{
    let ghost all = line_views(lines@);
    let total: usize = lines.len();
    let from: usize = if off < total {
        off
    } else if total == 0 {
        0
    } else {
        total - 1
    };
    let wanted: usize = if inner_h == 0 {
        1
    } else {
        inner_h
    };
    let n: usize = if wanted < total - from {
        wanted
    } else {
        total - from
    };
    let mut shown: Vec<Line> = Vec::new();
    let mut i: usize = 0;
    while i < n
        invariant
            i <= n,
            from + n <= total,
            total == lines@.len(),
            all == line_views(lines@),
            shown@.len() == i,
            forall|j: int| 0 <= j < i ==> (#[trigger] shown@[j])@ == all[from + j],
        decreases n - i,
    {
        shown.push(lines[from + i].clone());
        i += 1;
    }
    let mut text = name.to_owned();
    if total > inner_h && inner_h > 0 {
        text.append(" ");
        push_decimal(&mut text, from as u128 + 1);
        text.append("/");
        push_decimal(&mut text, total as u128);
    }
    let r = Panel {
        title: Span { text, style: panel_title_style(panel_focus, panel) },
        border: panel_border_style(panel_focus, panel),
        lines: shown,
    };
    proof {
        assert(r@.title.text =~= panel_title(name@, all.len(), off as nat, inner_h as nat));
        assert(r@.lines =~= visible(all, off as nat, inner_h as nat));
    }
    r
}

/// The retry or replacement badge on the screen, with its place.
#[derive(Debug, PartialEq)]
pub struct Badge {
    pub span: Span,
    pub area: Area,
}

/// What a badge shows, and where.
pub struct BadgeView {
    pub span: SpanView,
    pub area: Area,
}

impl View for Badge {
    type V = BadgeView;

    open spec fn view(&self) -> BadgeView {
        BadgeView { span: self.span@, area: self.area }
    }
}

/// What a badge that may be missing shows.
pub open spec fn badge_view(b: Option<Badge>) -> Option<BadgeView> {
    match b {
        Some(b) => Some(b@),
        None => None,
    }
}

/// A coordinate, which is the greatest one where `n` is greater.
pub open spec fn coordinate(n: int) -> u16 {
    if n > u16::MAX {
        u16::MAX
    } else {
        n as u16
    }
}

/// The bottom-right corner of an area: one row, as wide as a text of `len`
/// characters, as far as the area is.
pub open spec fn corner(area: Area, len: nat) -> Area {
    let width = at_most(len, area.width as nat);
    let height = at_most(1, area.height as nat);
    Area {
        x: coordinate(area.x + area.width - width),
        y: coordinate(area.y + area.height - height),
        width: width as u16,
        height: height as u16,
    }
}

fn coordinate_of(n: u32) -> (r: u16)
    ensures
        r == coordinate(n as int),
{
    if n > u16::MAX as u32 {
        u16::MAX
    } else {
        n as u16
    }
}

fn corner_of(area: Area, len: usize) -> (r: Area)
    ensures
        r == corner(area, len as nat),
{
    let width: u16 = if len < area.width as usize {
        len as u16
    } else {
        area.width
    };
    let height: u16 = if area.height == 0 {
        0
    } else {
        1
    };
    Area {
        x: coordinate_of(area.x as u32 + (area.width - width) as u32),
        y: coordinate_of(area.y as u32 + (area.height - height) as u32),
        width,
        height,
    }
}

/// The badge of a snapshot, in the corner of the footer.
pub open spec fn corner_badge(s: PoolView, foot: Area) -> Option<BadgeView> {
    match badge(s) {
        Some((text, color)) => Some(
            BadgeView { span: styled(text, in_bold(color)), area: corner(foot, text.len()) },
        ),
        None => None,
    }
}

fn corner_badge_of(snapshot: &PoolSnapshot, foot: Area) -> (r: Option<Badge>)
    ensures
        badge_view(r) == corner_badge(snapshot@, foot),
{
    match retry_badge(snapshot) {
        Some((text, color)) => {
            let area = corner_of(foot, text.unicode_len());
            let span = Span { text: text.to_owned(), style: Style::in_bold(color) };
            Some(Badge { span, area })
        },
        None => None,
    }
}

/// Where the parts of a frame stand.
#[derive(Debug, Clone, Copy, PartialEq, Eq, Structural)]
pub struct Areas {
    pub head: Area,
    pub tree: Area,
    pub map: Area,
    pub foot: Area,
}

/// One frame of the screen.
#[derive(Debug, PartialEq)]
pub struct Screen {
    pub areas: Areas,
    /// The lines of the header.
    pub header: Vec<Line>,
    pub tree: Panel,
    pub map: Panel,
    pub footer: Line,
    /// The badge in the corner of the footer.
    pub badge: Option<Badge>,
}

/// What a frame shows.
pub struct ScreenView {
    pub areas: Areas,
    pub header: Seq<Seq<SpanView>>,
    pub tree: PanelView,
    pub map: PanelView,
    pub footer: Seq<SpanView>,
    pub badge: Option<BadgeView>,
}

impl View for Screen {
    type V = ScreenView;

    open spec fn view(&self) -> ScreenView {
        ScreenView {
            areas: self.areas,
            header: line_views(self.header@),
            tree: self.tree@,
            map: self.map@,
            footer: self.footer@,
            badge: badge_view(self.badge),
        }
    }
}

/// What is left inside the borders of a panel.
pub open spec fn inside(n: u16) -> nat {
    if n < 2 {
        0
    } else {
        (n - 2) as nat
    }
}

/// The focused panel: none without a context.
pub open spec fn focus_of(ctx: Option<CtxView>) -> usize {
    match ctx {
        Some(c) => c.panel_focus,
        None => usize::MAX,
    }
}

/// The key hints.
pub open spec fn footer_text() -> Seq<char> {
    "q quit · ←/→/Tab pool · 1-9 jump · h/l panel · ↑/↓ scroll · read-only"@
}

/// What a frame shows of a snapshot and the recent events, in the given areas.
pub open spec fn composed(
    areas: Areas,
    s: PoolView,
    es: Seq<EreportView>,
    ctx: Option<CtxView>,
    tree_off: nat,
    map_off: nat,
) -> ScreenView {
    ScreenView {
        areas,
        header: header_lines(s, ctx),
        tree: body_panel(
            "vdev tree"@,
            PANEL_TREE,
            focus_of(ctx),
            tree_lines(s.root, 0),
            tree_off,
            inside(areas.tree.height),
        ),
        map: body_panel(
            "error surface map"@,
            PANEL_MAP,
            focus_of(ctx),
            map_lines(s, es, inside(areas.map.width)),
            map_off,
            inside(areas.map.height),
        ),
        footer: seq![styled(footer_text(), in_color(Color::DarkGray))],
        badge: corner_badge(s, areas.foot),
    }
}

/// What a frame that may be missing shows.
pub open spec fn screen_view(s: Option<Screen>) -> Option<ScreenView> {
    match s {
        Some(s) => Some(s@),
        None => None,
    }
}

fn inside_of(n: u16) -> (r: usize)
    ensures
        r == inside(n),
        r <= u16::MAX,
{
    if n < 2 {
        0
    } else {
        (n - 2) as usize
    }
}

/// Composes one frame in the given areas. `tree_off` and `map_off` are the
/// first visible lines of the two body panels.
pub fn compose(
    areas: Areas,
    snapshot: &PoolSnapshot,
    ereports: &[Ereport],
    ctx: Option<&ViewCtx>,
    tree_off: usize,
    map_off: usize,
) -> (r: Screen)
    requires
        ctx matches Some(c) ==> c.active < usize::MAX,
        ereports@.len() <= u32::MAX,
        names_fit(snapshot@, inside(areas.map.width)),
    ensures
        r@ == composed(
            areas,
            snapshot@,
            reports(ereports@),
            ctx_view(ctx),
            tree_off as nat,
            map_off as nat,
        ),
{
    let focus: usize = match ctx {
        Some(c) => c.panel_focus,
        None => usize::MAX,
    };
    let head = header(snapshot, ctx);
    let mut lines: Vec<Line> = Vec::new();
    proof {
        assert(line_views(lines@) =~= Seq::<Seq<SpanView>>::empty());
        assert(""@.len() == 0 && ""@ =~= repeat(' ', 0)) by {
            reveal_strlit("");
        }
    }
    vdev_lines(&snapshot.root, "", &mut lines, Ghost(0));
    assert(line_views(lines@) =~= tree_lines(snapshot@.root, 0));
    let tree = body_panel_of(
        "vdev tree",
        PANEL_TREE,
        focus,
        lines,
        tree_off,
        inside_of(areas.tree.height),
    );
    let rows = map_panel_lines(snapshot, ereports, inside_of(areas.map.width));
    let map = body_panel_of(
        "error surface map",
        PANEL_MAP,
        focus,
        rows,
        map_off,
        inside_of(areas.map.height),
    );
    let mut footer = Line::new();
    footer.styled(
        "q quit · ←/→/Tab pool · 1-9 jump · h/l panel · ↑/↓ scroll · read-only".to_owned(),
        Style::in_color(Color::DarkGray),
    );
    assert(footer@ =~= seq![styled(footer_text(), in_color(Color::DarkGray))]);
    let badge = corner_badge_of(snapshot, areas.foot);
    Screen { areas, header: head, tree, map, footer, badge }
}

/// The height of the header: one line more with a tab bar.
pub open spec fn header_height(has_ctx: bool) -> u16 {
    if has_ctx {
        5
    } else {
        4
    }
}

/// The lines of the footer.
pub const FOOTER_HEIGHT: u16 = 7;

/// The lines that the panels have at least, borders included.
pub const BODY_HEIGHT: u16 = 6;

/// How the areas of a frame stand on a screen, whatever its size. Header, panels and
/// footer stand one below the other and take up all rows; header and footer are as
/// wide as the screen. Neither is higher than it needs to be, and both are as high
/// where the screen has the rows, the panels having the rest. Where it has not, the
/// panels have their least height, as far as the screen goes, and header and footer
/// share what is left. The panels stand side by side and share the whole width, 55
/// to 45 percent.
pub open spec fn placed(areas: Areas, screen: Area, has_ctx: bool) -> bool {
    let width = screen.end(Axis::Horizontal) - screen.start(Axis::Horizontal);
    let rows = screen.end(Axis::Vertical) - screen.start(Axis::Vertical);
    &&& areas.head.spans(screen, Axis::Vertical)
    &&& areas.foot.spans(screen, Axis::Vertical)
    &&& areas.map.y == areas.tree.y
    &&& areas.map.height == areas.tree.height
    &&& areas.head.y == screen.y
    &&& areas.tree.y == areas.head.y + areas.head.height
    &&& areas.foot.y == areas.tree.y + areas.tree.height
    &&& areas.foot.y + areas.foot.height == screen.end(Axis::Vertical)
    &&& areas.head.height <= header_height(has_ctx)
    &&& areas.foot.height <= FOOTER_HEIGHT
    &&& if rows >= header_height(has_ctx) + BODY_HEIGHT + FOOTER_HEIGHT {
        areas.head.height == header_height(has_ctx) && areas.foot.height == FOOTER_HEIGHT
    } else {
        areas.tree.height == at_most(BODY_HEIGHT as nat, rows as nat)
    }
    &&& areas.tree.x == screen.x
    &&& areas.tree.width == share_cells(55, width)
    &&& areas.map.x == areas.tree.x + areas.tree.width
    &&& areas.map.x + areas.map.width == screen.end(Axis::Horizontal)
}

/// Divides the screen into header, body and footer, and the body into the vdev
/// tree and the error map.
pub fn place(screen: Area, has_ctx: bool) -> (areas: Areas)
    ensures
        placed(areas, screen, has_ctx),
{
    let head_h: u16 = if has_ctx {
        5
    } else {
        4
    };
    let mut rows: Vec<Part> = Vec::new();
    rows.push(Part::Length(head_h));
    rows.push(Part::Min(BODY_HEIGHT));
    rows.push(Part::Length(FOOTER_HEIGHT));
    let bands: Vec<Area> = split(screen, Axis::Vertical, &rows);
    let mut cols: Vec<Part> = Vec::new();
    cols.push(Part::Percentage(55));
    cols.push(Part::Percentage(45));
    let halves: Vec<Area> = split(bands[1], Axis::Horizontal, &cols);
    proof {
        reveal_with_fuel(room, 4);
        reveal_with_fuel(share, 4);
        let a = bands@[0];
        let b = bands@[1];
        let c = bands@[2];
        assert(a.spans(screen, Axis::Vertical) && b.spans(screen, Axis::Vertical) && c.spans(
            screen,
            Axis::Vertical,
        ));
        assert(halves@[0].spans(b, Axis::Horizontal) && halves@[1].spans(b, Axis::Horizontal));
        let q0 = seq![Part::Percentage(55)];
        let q1 = q0.push(Part::Percentage(45));
        assert(cols@ =~= q1);
        assert(q1.drop_last() =~= q0);
        assert(q0.drop_last() =~= Seq::<Part>::empty());
        assert(cols@.take(0) =~= Seq::<Part>::empty());
        assert(cols@.take(1) =~= q0);
        assert(cols@.take(2) =~= q1);
        assert(share(q0) == 55 && share(q1) == 100);
        assert(are_shares(cols@));
        let p0 = seq![Part::Length(head_h)];
        let p1 = p0.push(Part::Min(BODY_HEIGHT));
        let p2 = p1.push(Part::Length(FOOTER_HEIGHT));
        assert(rows@ =~= p2);
        assert(p2.drop_last() =~= p1);
        assert(p1.drop_last() =~= p0);
        assert(p0.drop_last() =~= Seq::<Part>::empty());
        assert(room(p2) == head_h + BODY_HEIGHT + FOOTER_HEIGHT);
        assert(rows@[0] == Part::Length(head_h) && rows@[1] == Part::Min(BODY_HEIGHT) && rows@[2]
            == Part::Length(FOOTER_HEIGHT));
        assert(are_sizes(rows@) && minima_count(rows@));
        assert(side_by_side(bands@, screen, Axis::Vertical));
        assert(bands@.last() == c);
        assert(c.start(Axis::Vertical) + c.extent(Axis::Vertical) == screen.end(Axis::Vertical));
        assert(a.height <= head_h && c.height <= FOOTER_HEIGHT);
        assert(forall|j: int| 0 <= j < rows@.len() && j != 1 ==> #[trigger] rows@[j] is Length);
        let all = screen.end(Axis::Vertical) - screen.start(Axis::Vertical);
        assert(b.height >= BODY_HEIGHT || b.height == all);
        assert(b.height > BODY_HEIGHT ==> a.height == head_h && c.height == FOOTER_HEIGHT);
        let width = screen.end(Axis::Horizontal) - screen.start(Axis::Horizontal);
        assert(share(cols@.take(0)) == 0 && share(cols@.take(1)) == 55 && share(cols@.take(2))
            == 100);
        assert(share_cells(0, width) == 0 && share_cells(100, width) == width);
        assert(halves@[0].x == screen.x + share_cells(share(cols@.take(0)), width));
        assert(halves@[0].x + halves@[0].width == screen.x + share_cells(
            share(cols@.take(1)),
            width,
        ));
        assert(halves@[1].x == screen.x + share_cells(share(cols@.take(1)), width));
        assert(halves@[1].x + halves@[1].width == screen.x + share_cells(
            share(cols@.take(2)),
            width,
        ));
    }
    Areas { head: bands[0], tree: halves[0], map: halves[1], foot: bands[2] }
}

/// Renders one frame without tabs.
pub fn render_frame(
    screen: Area,
    snapshot: &PoolSnapshot,
    ereports: &[Ereport],
) -> (r: Option<Screen>)
    requires
        ereports@.len() <= u32::MAX,
    ensures
        exists|areas: Areas| #[trigger]
            placed(areas, screen, false) && screen_view(r) == rendered(
                areas,
                snapshot@,
                reports(ereports@),
                None,
                0,
                0,
            ),
{
    render_frame_ctx(screen, snapshot, ereports, None)
}

/// Renders one frame with the tabs of `ctx`.
pub fn render_frame_ctx(
    screen: Area,
    snapshot: &PoolSnapshot,
    ereports: &[Ereport],
    ctx: Option<&ViewCtx>,
) -> (r: Option<Screen>)
    requires
        ctx matches Some(c) ==> c.active < usize::MAX,
        ereports@.len() <= u32::MAX,
    ensures
        exists|areas: Areas| #[trigger]
            placed(areas, screen, ctx is Some) && screen_view(r) == rendered(
                areas,
                snapshot@,
                reports(ereports@),
                ctx_view(ctx),
                0,
                0,
            ),
{
    render_frame_scrolled(screen, snapshot, ereports, ctx, 0, 0)
}

/// What is rendered in the given areas: nothing, where a device name cannot be
/// shortened to the width that is left for it.
pub open spec fn rendered(
    areas: Areas,
    s: PoolView,
    es: Seq<EreportView>,
    ctx: Option<CtxView>,
    tree_off: nat,
    map_off: nat,
) -> Option<ScreenView> {
    if names_fit(s, inside(areas.map.width)) {
        Some(composed(areas, s, es, ctx, tree_off, map_off))
    } else {
        None
    }
}

/// Renders one frame with scrolled panels.
///
/// The areas come from the layout of the screen. There is no frame where a
/// device name would have to be cut within a character.
pub fn render_frame_scrolled(
    screen: Area,
    snapshot: &PoolSnapshot,
    ereports: &[Ereport],
    ctx: Option<&ViewCtx>,
    tree_off: usize,
    map_off: usize,
) -> (r: Option<Screen>)
    requires
        ctx matches Some(c) ==> c.active < usize::MAX,
        ereports@.len() <= u32::MAX,
    ensures
        exists|areas: Areas| #[trigger]
            placed(areas, screen, ctx is Some) && screen_view(r) == rendered(
                areas,
                snapshot@,
                reports(ereports@),
                ctx_view(ctx),
                tree_off as nat,
                map_off as nat,
            ),
{
    let areas = place(screen, ctx.is_some());
    assert(placed(areas, screen, ctx is Some));
    if !names_fit_of(snapshot, inside_of(areas.map.width)) {
        return None;
    }
    Some(compose(areas, snapshot, ereports, ctx, tree_off, map_off))
}

/// A badge that is due is always drawn, in the header and in the corner, whatever
/// the scan record is; and none is drawn that is not due.
pub proof fn law_badge_is_always_drawn(
    areas: Areas,
    s: PoolView,
    es: Seq<EreportView>,
    ctx: Option<CtxView>,
    tree_off: nat,
    map_off: nat,
)
    ensures
        ({
            let screen = composed(areas, s, es, ctx, tree_off, map_off);
            &&& screen.header.last() == scan_spans(s)
            &&& scan_spans(s).contains(badge_span(s))
            &&& badge(s) matches Some((text, color)) ==> badge_span(s) == styled(
                " ["@ + text + "]"@,
                in_bold(color),
            ) && (screen.badge matches Some(b) && b.span == styled(text, in_bold(color)))
            &&& badge(s) is None ==> badge_span(s).text.len() == 0 && screen.badge is None
        }),
{
    reveal_strlit("");
    let line = scan_spans(s);
    if s.scan is Some {
        assert(line[2] == badge_span(s));
    } else {
        assert(line[1] == badge_span(s));
    }
}

/// The badge stands in the bottom-right corner of the screen, below the key hints.
pub proof fn law_badge_stands_in_the_corner(
    areas: Areas,
    screen: Area,
    has_ctx: bool,
    len: nat,
)
    requires
        placed(areas, screen, has_ctx),
        screen.x + screen.width <= u16::MAX,
        screen.y + screen.height <= u16::MAX,
        screen.height >= header_height(has_ctx) + BODY_HEIGHT + FOOTER_HEIGHT,
        len <= screen.width,
    ensures
        ({
            let c = corner(areas.foot, len);
            &&& c.x + c.width == screen.x + screen.width
            &&& c.y + c.height == screen.y + screen.height
            &&& c.width == len
            &&& c.height == 1
            &&& c.y > areas.foot.y
        }),
{
}

/// How many nodes a tree has.
pub open spec fn node_count(n: VdevNode) -> nat
    decreases n,
{
    1 + all_node_count(n.children)
}

/// How many nodes some trees have.
pub open spec fn all_node_count(f: Seq<VdevNode>) -> nat
    decreases f,
{
    if f.len() == 0 {
        0
    } else {
        all_node_count(f.subrange(0, f.len() - 1)) + node_count(f[f.len() - 1])
    }
}

/// The tree panel has one line for every vdev.
pub proof fn law_every_vdev_has_a_line(n: VdevNode, depth: nat)
    ensures
        tree_lines(n, depth).len() == node_count(n),
    decreases n,
{
    lemma_forest_lines(n.children, depth + 1);
}

proof fn lemma_forest_lines(f: Seq<VdevNode>, depth: nat)
    ensures
        forest_lines(f, depth).len() == all_node_count(f),
    decreases f,
{
    if f.len() > 0 {
        lemma_forest_lines(f.subrange(0, f.len() - 1), depth);
        law_every_vdev_has_a_line(f[f.len() - 1], depth);
    }
}

/// The map panel has one line for every device, and two more.
pub proof fn law_every_device_has_a_row(s: PoolView, es: Seq<EreportView>, inner_w: nat)
    ensures
        map_lines(s, es, inner_w).len() == leaf_names(s.root).len() + 2,
{
    crate::surface::law_worst_device_first(
        device_heats(es, leaf_names(s.root), map_columns(inner_w).1),
    );
}

/// Scrolling never leaves a panel empty: at least one line is shown where there
/// is one, never more than fit, and always a run of neighbouring lines.
pub proof fn law_scrolling_stops_at_the_end(
    lines: Seq<Seq<SpanView>>,
    off: nat,
    inner_h: nat,
)
    requires
        lines.len() > 0,
    ensures
        ({
            let from = first_visible(off, lines.len());
            let shown = visible(lines, off, inner_h);
            &&& 1 <= shown.len() <= at_least_one(inner_h)
            &&& from < lines.len()
            &&& off < lines.len() ==> from == off
            &&& shown == lines.subrange(from as int, from + shown.len() as int)
        }),
{
}

/// The map fits its panel: name, strip and count with the blanks between them
/// take no more than the inner width, from the width on at which a name is
/// shown.
pub proof fn law_map_columns_fit(inner_w: nat)
    ensures
        ({
            let (name_w, strip_cols) = map_columns(inner_w);
            &&& name_w > 0 ==> name_w + 1 + strip_cols + (if strip_cols > 0 {
                1nat
            } else {
                0
            }) + 7 <= inner_w
            &&& strip_cols > 0 ==> name_w > 0
            &&& strip_cols <= 40
        }),
{
}

/// Error counters are shown exactly where one of them is not zero.
pub proof fn law_counters_show_only_errors(row: VdevRow)
    ensures
        counters_text(row).len() > 0 <==> row.read_err > 0 || row.write_err > 0
            || row.checksum_err > 0,
{
    reveal_strlit("  R:");
}

} // verus!
