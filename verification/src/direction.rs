//! The eight step directions and the four of them under which edges are stored.

use vstd::prelude::*;

verus! {

/// A grid position: column, then row.
pub type Point = (i32, i32);

/// A position as a pair of mathematical integers.
pub open spec fn pt(p: Point) -> (int, int) {
    (p.0 as int, p.1 as int)
}

/// The four directions under which an edge is stored. Every edge between two
/// neighbouring cells is recorded once, at the end from which it points in
/// one of these directions.
#[derive(Debug, Clone, Copy, PartialEq, Eq, Structural)]
pub enum DirectionInner {
    Right,
    DownRight,
    Down,
    DownLeft,
}

impl DirectionInner {
    /// The slot of a cell's occupancy table that belongs to this direction.
    pub open spec fn slot(self) -> int {
        match self {
            DirectionInner::Right => 0,
            DirectionInner::DownRight => 1,
            DirectionInner::Down => 2,
            DirectionInner::DownLeft => 3,
        }
    }

    /// The direction that owns slot `d`.
    pub open spec fn of_slot(d: int) -> DirectionInner {
        if d == 0 {
            DirectionInner::Right
        } else if d == 1 {
            DirectionInner::DownRight
        } else if d == 2 {
            DirectionInner::Down
        } else {
            DirectionInner::DownLeft
        }
    }

    /// The same direction as a step direction.
    pub open spec fn outward(self) -> Direction {
        match self {
            DirectionInner::Right => Direction::Right,
            DirectionInner::DownRight => Direction::DownRight,
            DirectionInner::Down => Direction::Down,
            DirectionInner::DownLeft => Direction::DownLeft,
        }
    }

    /// The number of the direction's slot, from 0 to 3.
    pub fn index(self) -> (d: usize)
        ensures
            d == self.slot(),
            d < 4,
    {
        match self {
            DirectionInner::Right => 0,
            DirectionInner::DownRight => 1,
            DirectionInner::Down => 2,
            DirectionInner::DownLeft => 3,
        }
    }

    /// The stored direction with slot number `d`, which is below 4.
    pub fn from_index(d: u8) -> (r: DirectionInner)
        requires
            d < 4,
        ensures
            r == DirectionInner::of_slot(d as int),
            r.slot() == d,
    {
        if d == 0 {
            DirectionInner::Right
        } else if d == 1 {
            DirectionInner::DownRight
        } else if d == 2 {
            DirectionInner::Down
        } else {
            DirectionInner::DownLeft
        }
    }
}

/// A step from a cell to one of its eight neighbours.
#[derive(Debug, Clone, Copy, PartialEq, Eq, Structural)]
pub enum Direction {
    Right,
    DownRight,
    Down,
    DownLeft,
    Left,
    UpLeft,
    Up,
    UpRight,
}

impl From<DirectionInner> for Direction {
    fn from(d: DirectionInner) -> (r: Direction) {
        match d {
            DirectionInner::Right => Direction::Right,
            DirectionInner::DownRight => Direction::DownRight,
            DirectionInner::Down => Direction::Down,
            DirectionInner::DownLeft => Direction::DownLeft,
        }
    }
}

impl vstd::std_specs::convert::FromSpecImpl<DirectionInner> for Direction {
    open spec fn obeys_from_spec() -> bool {
        true
    }

    open spec fn from_spec(d: DirectionInner) -> Direction {
        d.outward()
    }
}

impl Direction {
    /// Place of the direction in the order in which the search tries them.
    pub open spec fn order(self) -> nat {
        match self {
            Direction::Right => 0,
            Direction::DownRight => 1,
            Direction::Down => 2,
            Direction::DownLeft => 3,
            Direction::Left => 4,
            Direction::UpLeft => 5,
            Direction::Up => 6,
            Direction::UpRight => 7,
        }
    }

    /// Column offset of one step.
    pub open spec fn dx(self) -> int {
        match self {
            Direction::Right | Direction::DownRight | Direction::UpRight => 1,
            Direction::Left | Direction::DownLeft | Direction::UpLeft => -1,
            Direction::Up | Direction::Down => 0,
        }
    }

    /// Row offset of one step; rows grow downwards.
    pub open spec fn dy(self) -> int {
        match self {
            Direction::Down | Direction::DownRight | Direction::DownLeft => 1,
            Direction::Up | Direction::UpRight | Direction::UpLeft => -1,
            Direction::Left | Direction::Right => 0,
        }
    }

    /// The cell one step away from `p`.
    pub open spec fn target(self, p: (int, int)) -> (int, int) {
        (p.0 + self.dx(), p.1 + self.dy())
    }

    /// The stored direction that lies on the same line as this one.
    pub open spec fn inner(self) -> DirectionInner {
        match self {
            Direction::Right | Direction::Left => DirectionInner::Right,
            Direction::DownRight | Direction::UpLeft => DirectionInner::DownRight,
            Direction::Down | Direction::Up => DirectionInner::Down,
            Direction::DownLeft | Direction::UpRight => DirectionInner::DownLeft,
        }
    }

    /// Whether the direction is the opposite of a stored one.
    pub open spec fn reversed(self) -> bool {
        match self {
            Direction::Left | Direction::UpLeft | Direction::Up | Direction::UpRight => true,
            _ => false,
        }
    }

    /// The cell at which the edge from `p` in this direction is stored.
    pub open spec fn home(self, p: (int, int)) -> (int, int) {
        if self.reversed() {
            self.target(p)
        } else {
            p
        }
    }

    /// For a diagonal step from `p`: the cell and stored direction of the
    /// other diagonal of the unit square that the step crosses.
    pub open spec fn rival(self, p: (int, int)) -> Option<((int, int), DirectionInner)> {
        match self {
            Direction::Up | Direction::Down | Direction::Left | Direction::Right => None,
            Direction::UpRight => Some(((p.0, p.1 - 1), DirectionInner::DownRight)),
            Direction::UpLeft => Some(((p.0, p.1 - 1), DirectionInner::DownLeft)),
            Direction::DownRight => Some(((p.0 + 1, p.1), DirectionInner::DownLeft)),
            Direction::DownLeft => Some(((p.0 - 1, p.1), DirectionInner::DownRight)),
        }
    }

    /// Whether a pair of integers fits a `Point`.
    pub open spec fn fits(p: (int, int)) -> bool {
        i32::MIN <= p.0 <= i32::MAX && i32::MIN <= p.1 <= i32::MAX
    }

    /// The `i`-th direction in the order in which the search tries them.
    pub fn nth(i: usize) -> (d: Direction)
        requires
            i < 8,
        ensures
            d.order() == i,
    {
        if i == 0 {
            Direction::Right
        } else if i == 1 {
            Direction::DownRight
        } else if i == 2 {
            Direction::Down
        } else if i == 3 {
            Direction::DownLeft
        } else if i == 4 {
            Direction::Left
        } else if i == 5 {
            Direction::UpLeft
        } else if i == 6 {
            Direction::Up
        } else {
            Direction::UpRight
        }
    }

    /// The stored direction on the line of this one, and whether this one
    /// runs against it.
    pub fn to_inner(self) -> (r: (DirectionInner, bool))
        ensures
            r.0 == self.inner(),
            r.1 == self.reversed(),
    {
        match self {
            Direction::Up => (DirectionInner::Down, true),
            Direction::Down => (DirectionInner::Down, false),
            Direction::Left => (DirectionInner::Right, true),
            Direction::Right => (DirectionInner::Right, false),
            Direction::UpRight => (DirectionInner::DownLeft, true),
            Direction::UpLeft => (DirectionInner::DownRight, true),
            Direction::DownRight => (DirectionInner::DownRight, false),
            Direction::DownLeft => (DirectionInner::DownLeft, false),
        }
    }

    /// The cell and the stored direction under which the edge from `pos` in
    /// this direction is kept.
    pub fn store(self, pos: Point) -> (r: (Point, DirectionInner))
        requires
            Direction::fits(self.home(pt(pos))),
        ensures
            pt(r.0) == self.home(pt(pos)),
            r.1 == self.inner(),
    {
        let (direction_inner, reverse) = self.to_inner();
        if reverse {
            (self.apply_offset(pos), direction_inner)
        } else {
            (pos, direction_inner)
        }
    }

    /// The column and row offsets of one step.
    pub fn offset(self) -> (r: (i32, i32))
        ensures
            r.0 == self.dx(),
            r.1 == self.dy(),
    {
        match self {
            Direction::Up => (0, -1),
            Direction::UpRight => (1, -1),
            Direction::Right => (1, 0),
            Direction::DownRight => (1, 1),
            Direction::Down => (0, 1),
            Direction::DownLeft => (-1, 1),
            Direction::Left => (-1, 0),
            Direction::UpLeft => (-1, -1),
        }
    }

    /// The position one step away from `pos`.
    pub fn apply_offset(self, pos: Point) -> (r: Point)
        requires
            Direction::fits(self.target(pt(pos))),
        ensures
            pt(r) == self.target(pt(pos)),
    {
        let offset = self.offset();
        (pos.0 + offset.0, pos.1 + offset.1)
    }

    /// For a diagonal step from `pos`, the slot of the diagonal that it would
    /// cross; `None` for the other four directions, which cross nothing.
    pub fn may_conflict(self, pos: Point) -> (r: Option<(Point, DirectionInner)>)
        requires
            self.rival(pt(pos)) matches Some(c) ==> Direction::fits(c.0),
        ensures
            r is Some == self.rival(pt(pos)) is Some,
            r matches Some(c) ==> self.rival(pt(pos)) == Some((pt(c.0), c.1)),
    {
        let (x, y) = pos;
        match self {
            Direction::Up => None,
            Direction::Down => None,
            Direction::Left => None,
            Direction::Right => None,
            Direction::UpRight => Some(((x, y - 1), DirectionInner::DownRight)),
            Direction::UpLeft => Some(((x, y - 1), DirectionInner::DownLeft)),
            Direction::DownRight => Some(((x + 1, y), DirectionInner::DownLeft)),
            Direction::DownLeft => Some(((x - 1, y), DirectionInner::DownRight)),
        }
    }
}

} // verus!
