//! Areas of the screen.

use ratatui::layout::{Constraint, Direction, Layout, Rect};
use vstd::prelude::*;

verus! {

/// A rectangle of the screen, in cells.
#[derive(Debug, Clone, Copy, PartialEq, Eq, Structural)]
pub struct Area {
    pub x: u16,
    pub y: u16,
    pub width: u16,
    pub height: u16,
}

/// The direction in which an area is divided.
#[derive(Debug, Clone, Copy, PartialEq, Eq, Structural)]
pub enum Axis {
    /// Into columns.
    Horizontal,
    /// Into rows.
    Vertical,
}

/// How much of an area a part asks for.
#[derive(Debug, Clone, Copy, PartialEq, Eq, Structural)]
pub enum Part {
    Length(u16),
    Min(u16),
    Percentage(u16),
}

impl Area {
    /// Where the area starts along an axis.
    pub open spec fn start(self, axis: Axis) -> int {
        match axis {
            Axis::Horizontal => self.x as int,
            Axis::Vertical => self.y as int,
        }
    }

    /// How far the area extends along an axis.
    pub open spec fn extent(self, axis: Axis) -> int {
        match axis {
            Axis::Horizontal => self.width as int,
            Axis::Vertical => self.height as int,
        }
    }

    /// Where the area ends along an axis; the greatest coordinate at most.
    pub open spec fn end(self, axis: Axis) -> int {
        let e = self.start(axis) + self.extent(axis);
        if e > u16::MAX {
            u16::MAX as int
        } else {
            e
        }
    }

    /// Whether the area is as wide as another one across an axis, and stands at
    /// the same place there.
    pub open spec fn spans(self, whole: Area, axis: Axis) -> bool {
        match axis {
            Axis::Horizontal => self.y == whole.y && self.height == whole.height,
            Axis::Vertical => self.x == whole.x && self.width == whole.width,
        }
    }

    /// Whether the area lies within another one along an axis.
    pub open spec fn within(self, whole: Area, axis: Axis) -> bool {
        whole.start(axis) <= self.start(axis) && self.start(axis) + self.extent(axis) <= whole.end(
            axis,
        )
    }
}

/// The room that fixed lengths and minima ask for together.
pub open spec fn room(parts: Seq<Part>) -> int
    decreases parts.len(),
{
    if parts.len() == 0 {
        0
    } else {
        room(parts.drop_last()) + match parts.last() {
            Part::Length(n) => n as int,
            Part::Min(n) => n as int,
            Part::Percentage(_) => 0,
        }
    }
}

/// The shares that percentages ask for together.
pub open spec fn share(parts: Seq<Part>) -> int
    decreases parts.len(),
{
    if parts.len() == 0 {
        0
    } else {
        share(parts.drop_last()) + match parts.last() {
            Part::Percentage(p) => p as int,
            _ => 0,
        }
    }
}

/// A few parts that each ask for a length or a minimum.
pub open spec fn are_sizes(parts: Seq<Part>) -> bool {
    &&& parts.len() <= 3
    &&& forall|i: int| 0 <= i < parts.len() ==> !(#[trigger] parts[i] is Percentage)
}

/// A few parts that each ask for a percentage, together for no more than the
/// whole.
pub open spec fn are_shares(parts: Seq<Part>) -> bool {
    &&& parts.len() <= 3
    &&& forall|i: int| 0 <= i < parts.len() ==> #[trigger] parts[i] is Percentage
    &&& share(parts) <= 100
}

/// Whether no minimum is greater than the layout can count.
pub open spec fn minima_count(parts: Seq<Part>) -> bool {
    forall|i: int|
        0 <= i < parts.len() ==> (#[trigger] parts[i] matches Part::Min(n) ==> n <= i16::MAX)
}

/// Whether a part of the size `size` has the length or the minimum that it asks
/// for.
pub open spec fn meets(part: Part, size: int) -> bool {
    match part {
        Part::Length(n) => size == n,
        Part::Min(n) => size >= n,
        Part::Percentage(_) => true,
    }
}

/// Whether some parts stand side by side along an axis, from the start of the
/// area on and without a gap.
pub open spec fn side_by_side(r: Seq<Area>, area: Area, axis: Axis) -> bool {
    &&& r.len() > 0 ==> r[0].start(axis) == area.start(axis)
    &&& forall|i: int, j: int|
        0 <= i && j == i + 1 && j < r.len() ==> (#[trigger] r[i]).start(axis) + r[i].extent(axis)
            == (#[trigger] r[j]).start(axis)
}

/// How an area is divided into lengths and minima: side by side, up to the end of
/// the area where there is a minimum. No length gets more than it asks for. All
/// have what they ask for where there is room for that. Where there is not, a lone
/// minimum has what it asks for before any length, as far as the area goes, and a
/// minimum has more than that only where every length has its own.
pub open spec fn divided_by_size(r: Seq<Area>, parts: Seq<Part>, area: Area, axis: Axis) -> bool {
    let extent = area.end(axis) - area.start(axis);
    &&& side_by_side(r, area, axis)
    &&& (exists|i: int| 0 <= i < parts.len() && #[trigger] parts[i] is Min) ==> r.last().start(axis)
        + r.last().extent(axis) == area.end(axis)
    &&& forall|i: int|
        0 <= i < parts.len() ==> (#[trigger] parts[i] matches Part::Length(n) ==> r[i].extent(axis)
            <= n)
    &&& room(parts) <= extent && minima_count(parts) ==> forall|i: int|
        0 <= i < parts.len() ==> meets(#[trigger] parts[i], r[i].extent(axis))
    &&& forall|i: int|
        0 <= i < parts.len() && minima_count(parts) && (forall|j: int|
            0 <= j < parts.len() && j != i ==> #[trigger] parts[j] is Length) ==> (
        #[trigger] parts[i] matches Part::Min(n) ==> r[i].extent(axis) >= n || r[i].extent(axis)
            == extent)
    &&& forall|i: int, j: int|
        0 <= i < parts.len() && 0 <= j < parts.len() ==> (#[trigger] parts[i] matches Part::Min(n)
            ==> (#[trigger] parts[j] matches Part::Length(m) ==> r[i].extent(axis) > n
            ==> r[j].extent(axis) == m))
}

/// How many cells a share of so many percent takes of `extent` cells: the nearest
/// number, halves up.
pub open spec fn share_cells(percent: int, extent: int) -> int {
    (percent * extent + 50) / 100
}

/// How an area is divided into percentages: each part starts and ends at the cell
/// that is nearest to the share of all parts before it, and with it.
pub open spec fn divided_by_share(r: Seq<Area>, parts: Seq<Part>, area: Area, axis: Axis) -> bool {
    let extent = area.end(axis) - area.start(axis);
    forall|i: int|
        0 <= i < r.len() ==> (#[trigger] r[i]).start(axis) == area.start(axis) + share_cells(
            share(parts.take(i)),
            extent,
        ) && r[i].start(axis) + r[i].extent(axis) == area.start(axis) + share_cells(
            share(parts.take(i + 1)),
            extent,
        )
}

/// `Layout::split` of ratatui divides an area into as many parts as there are
/// constraints, along one axis.
///
/// Every part is as wide as the area across the axis and lies within the area
/// along it. Up to three lengths and minima divide the area by their sizes: the
/// layout holds the parts together more strongly than it meets a minimum, that
/// more strongly than a length, and a length more strongly than it grows anything.
/// Up to three percentages that can be met divide it by their shares. Nothing is
/// said of other mixtures, nor of how several lengths share too little room, nor of
/// how several minima share theirs: there the solver may choose.
#[verifier::external_body]
pub(crate) fn split(area: Area, axis: Axis, parts: &Vec<Part>) -> (r: Vec<Area>)
    ensures
        r@.len() == parts@.len(),
        forall|i: int|
            0 <= i < r@.len() ==> (#[trigger] r@[i]).spans(area, axis) && r@[i].within(area, axis),
        are_sizes(parts@) ==> divided_by_size(r@, parts@, area, axis),
        are_shares(parts@) ==> divided_by_share(r@, parts@, area, axis),
{
    let direction = match axis {
        Axis::Horizontal => Direction::Horizontal,
        Axis::Vertical => Direction::Vertical,
    };
    let constraints = parts.iter().map(|p| match p {
        Part::Length(n) => Constraint::Length(*n),
        Part::Min(n) => Constraint::Min(*n),
        Part::Percentage(n) => Constraint::Percentage(*n),
    });
    let whole = Rect { x: area.x, y: area.y, width: area.width, height: area.height };
    let split = Layout::new(direction, constraints).split(whole);
    split.iter().map(|r| Area { x: r.x, y: r.y, width: r.width, height: r.height }).collect()
}

} // verus!
