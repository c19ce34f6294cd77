//! Dividing the screen.

use ratatui::layout::{Constraint, Direction, Layout, Rect};
use vstd::prelude::*;

verus! {

/// A part of the screen, in character cells.
#[derive(Clone, Copy, Debug, PartialEq, Eq, Structural)]
pub struct Area {
    pub x: u16,
    pub y: u16,
    pub width: u16,
    pub height: u16,
}

/// The way in which an area is divided.
#[derive(Clone, Copy, Debug, PartialEq, Eq, Structural)]
pub enum Axis {
    Horizontal,
    Vertical,
}

/// What one part of a divided area asks for.
#[derive(Clone, Copy, Debug, PartialEq, Eq, Structural)]
pub enum Share {
    Percentage(u16),
    Length(u16),
}

impl Area {
    /// No coordinate of the area is beyond what a coordinate can be.
    pub open spec fn fits(self) -> bool {
        self.x + self.width <= u16::MAX && self.y + self.height <= u16::MAX
    }

    pub open spec fn start(self, axis: Axis) -> int {
        match axis {
            Axis::Horizontal => self.x as int,
            Axis::Vertical => self.y as int,
        }
    }

    pub open spec fn size(self, axis: Axis) -> int {
        match axis {
            Axis::Horizontal => self.width as int,
            Axis::Vertical => self.height as int,
        }
    }

    /// The two areas have the same extent across the axis.
    pub open spec fn aligned(self, other: Area, axis: Axis) -> bool {
        match axis {
            Axis::Horizontal => self.y == other.y && self.height == other.height,
            Axis::Vertical => self.x == other.x && self.width == other.width,
        }
    }

    /// The area reaches from one corner to the other.
    pub open spec fn spans(self, left: int, top: int, right: int, bottom: int) -> bool {
        &&& self.x == left
        &&& self.y == top
        &&& self.x + self.width == right
        &&& self.y + self.height == bottom
    }

    /// `part` lies in this area.
    pub open spec fn encloses(self, part: Area) -> bool {
        &&& self.x <= part.x
        &&& self.y <= part.y
        &&& part.x + part.width <= self.x + self.width
        &&& part.y + part.height <= self.y + self.height
    }

    /// `part` is a slice of this area across the axis.
    pub open spec fn slice(self, part: Area, axis: Axis) -> bool {
        &&& self.aligned(part, axis)
        &&& self.start(axis) <= part.start(axis)
        &&& part.start(axis) + part.size(axis) <= self.start(axis) + self.size(axis)
        &&& part.start(axis) + part.size(axis) <= u16::MAX
    }
}

/// The cell at which so many percent of an extent end, rounded to the nearest.
pub open spec fn portion(start: int, size: int, percent: int) -> int {
    (100 * start + size * percent + 50) / 100
}

/// Two shares are percentages that make up the whole.
pub open spec fn complementary(shares: Seq<Share>) -> bool {
    &&& shares.len() == 2
    &&& shares[0] matches Share::Percentage(p)
    &&& shares[1] matches Share::Percentage(q)
    &&& p + q == 100
}

/// Two parts meet at the cell where `percent` of the area end, and leave nothing
/// over.
pub open spec fn meet(area: Area, axis: Axis, percent: int, first: Area, second: Area) -> bool {
    let cut = portion(area.start(axis), area.size(axis), percent);
    &&& first.start(axis) == area.start(axis)
    &&& first.start(axis) + first.size(axis) == cut
    &&& second.start(axis) == cut
    &&& second.start(axis) + second.size(axis) == area.start(axis) + area.size(axis)
}

/// The shares are a length and two halves.
pub open spec fn headed(shares: Seq<Share>) -> bool {
    &&& shares.len() == 3
    &&& shares[0] is Length
    &&& shares[1] == Share::Percentage(50)
    &&& shares[2] == Share::Percentage(50)
}

/// How much of an extent goes to a length.
pub open spec fn head_size(size: int, length: int) -> int {
    if length < size {
        length
    } else {
        size
    }
}

/// Where two parts meet that share what a length leaves over.
pub open spec fn tail_cut(start: int, size: int, length: int) -> int {
    start + head_size(size, length) + (size - head_size(size, length) + 1) / 2
}

/// The first part is as long as it should be, if there is room for it; the others
/// follow and share the rest equally, the first of them with the odd cell.
pub open spec fn stacked(area: Area, axis: Axis, length: int, parts: Seq<Area>) -> bool {
    let head = area.start(axis) + head_size(area.size(axis), length);
    let cut = tail_cut(area.start(axis), area.size(axis), length);
    &&& parts[0].start(axis) == area.start(axis)
    &&& parts[0].start(axis) + parts[0].size(axis) == head
    &&& parts[1].start(axis) == head
    &&& parts[1].start(axis) + parts[1].size(axis) == cut
    &&& parts[2].start(axis) == cut
    &&& parts[2].start(axis) + parts[2].size(axis) == area.start(axis) + area.size(axis)
}

/// `Layout::split`: there is one part for each share, and each is a slice of
/// the area.  Two percentages that make up the whole meet at the nearest cell
/// and leave nothing over.  A length goes before percentages, and the segments
/// otherwise grow alike, so that two halves beside a length share equally what
/// it leaves over.  How other shares are reconciled is not said.
#[verifier::external_body]
pub(crate) fn split(axis: Axis, shares: &Vec<Share>, area: Area) -> (parts: Vec<Area>)
    ensures
        parts@.len() == shares@.len(),
        forall|i: int| 0 <= i < parts@.len() ==> area.slice(#[trigger] parts@[i], axis),
        area.fits() && complementary(shares@) ==> meet(
            area,
            axis,
            shares@[0]->Percentage_0 as int,
            parts@[0],
            parts@[1],
        ),
        area.fits() && headed(shares@) ==> stacked(
            area,
            axis,
            shares@[0]->Length_0 as int,
            parts@,
        ),
{
    let direction = match axis {
        Axis::Horizontal => Direction::Horizontal,
        Axis::Vertical => Direction::Vertical,
    };
    let constraints = shares.iter().map(|s| match s {
        Share::Percentage(p) => Constraint::Percentage(*p),
        Share::Length(n) => Constraint::Length(*n),
    });
    let whole = Rect { x: area.x, y: area.y, width: area.width, height: area.height };
    let parts = Layout::default().direction(direction).constraints(constraints).split(whole);
    parts.iter().map(|r| Area { x: r.x, y: r.y, width: r.width, height: r.height }).collect()
}

/// Divides an area in two.
pub fn halves(axis: Axis, first: u16, area: Area) -> (parts: (Area, Area))
    requires
        first <= 100,
    ensures
        area.slice(parts.0, axis),
        area.slice(parts.1, axis),
        area.fits() ==> meet(area, axis, first as int, parts.0, parts.1),
{
    let mut shares: Vec<Share> = Vec::new();
    shares.push(Share::Percentage(first));
    shares.push(Share::Percentage(100 - first));
    let parts: Vec<Area> = split(axis, &shares, area);
    proof {
        assert(complementary(shares@));
        assert(area.slice(parts@[0], axis) && area.slice(parts@[1], axis));
    }
    (parts[0], parts[1])
}

/// A portion ends at the cell that is nearest to so many percent.
pub proof fn law_portions_are_rounded(start: int, size: int, percent: int)
    ensures
        100 * (portion(start, size, percent) - start) <= size * percent + 50,
        size * percent < 100 * (portion(start, size, percent) - start) + 50,
{
}

/// Two parts that meet fill the area, one behind the other, and the first has its
/// percentage of it, to the nearest cell.
pub proof fn law_parts_fill_the_area(
    area: Area,
    axis: Axis,
    percent: int,
    first: Area,
    second: Area,
)
    requires
        meet(area, axis, percent, first, second),
    ensures
        first.size(axis) + second.size(axis) == area.size(axis),
        first.start(axis) == area.start(axis),
        second.start(axis) == first.start(axis) + first.size(axis),
        100 * first.size(axis) <= area.size(axis) * percent + 50,
        area.size(axis) * percent < 100 * first.size(axis) + 50,
{
    law_portions_are_rounded(area.start(axis), area.size(axis), percent);
}

/// A length that finds room takes as much as it asks for, and else all there is; what
/// it leaves over is shared equally, the first with the odd cell.
pub proof fn law_what_a_length_leaves(start: int, size: int, length: int)
    requires
        size >= 0,
        length >= 0,
    ensures
        ({
            let head = head_size(size, length);
            let first = tail_cut(start, size, length) - start - head;
            let second = start + size - tail_cut(start, size, length);
            &&& length <= size ==> head == length
            &&& length > size ==> head == size
            &&& first + second == size - head
            &&& 0 <= second <= first <= second + 1
        }),
{
}

} // verus!
