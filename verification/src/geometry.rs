//! Coordinates, directions, colors and moves.

use vstd::prelude::*;

verus! {

/// A grid position: `(0, 0)` is one corner of the board, `(W - 1, W - 1)` the opposite one.
#[derive(Debug, PartialEq, Eq, Clone, Copy, Structural)]
pub struct Coord {
    pub x: i8,
    pub y: i8,
}

impl Coord {
    pub fn new(x: i8, y: i8) -> (c: Self)
        ensures
            c == (Coord { x, y }),
    {
        Coord { x, y }
    }

    /// Whether the position lies on a board with `width` lines.
    pub open spec fn on_board(self, width: int) -> bool {
        0 <= self.x < width && 0 <= self.y < width
    }

    /// Row-major index of the position.
    pub open spec fn cell(self, width: int) -> int {
        self.x * width + self.y
    }
}

/// A root direction `(dx, dy)`; the y axis points down.
#[derive(Debug, PartialEq, Eq, Clone, Copy, Structural)]
pub struct Dir(pub i8, pub i8);

impl Dir {
    /// Both components in `{-1, 0, 1}`, not both zero.
    pub open spec fn valid(self) -> bool {
        -1 <= self.0 <= 1 && -1 <= self.1 <= 1 && !(self.0 == 0 && self.1 == 0)
    }

    pub open spec fn diagonal(self) -> bool {
        (self.0 == 1 || self.0 == -1) && (self.1 == 1 || self.1 == -1)
    }

    pub open spec fn orthogonal(self) -> bool {
        ((self.0 == 1 || self.0 == -1) && self.1 == 0) || (self.0 == 0 && (self.1 == 1 || self.1
            == -1))
    }

    /// The opposite direction (for valid directions).
    pub open spec fn reversed(self) -> Dir {
        Dir((-self.0) as i8, (-self.1) as i8)
    }

    /// Manhattan distance between two directions.
    pub open spec fn distance(self, other: Dir) -> int {
        (if self.0 >= other.0 {
            self.0 - other.0
        } else {
            other.0 - self.0
        }) + (if self.1 >= other.1 {
            self.1 - other.1
        } else {
            other.1 - self.1
        })
    }
}

/// The direction that leads from `a` to `b`, for neighbouring positions.
pub open spec fn dir_between(a: Coord, b: Coord) -> Dir {
    Dir((b.x - a.x) as i8, (b.y - a.y) as i8)
}

/// The position reached from `a` by one step in direction `d`.
pub open spec fn stepped(a: Coord, d: Dir) -> Coord {
    Coord { x: (a.x + d.0) as i8, y: (a.y + d.1) as i8 }
}

/// The two sides.
#[derive(Debug, PartialEq, Eq, Clone, Copy, Structural)]
pub enum Color {
    Red,
    Blue,
}

impl Color {
    pub open spec fn opponent(self) -> Color {
        match self {
            Color::Red => Color::Blue,
            Color::Blue => Color::Red,
        }
    }

    pub open spec fn spec_index(self) -> u8 {
        match self {
            Color::Red => 0u8,
            Color::Blue => 1u8,
        }
    }

    /// The number that stands for the color outside the library: Red is 0, Blue is 1.
    #[verifier::when_used_as_spec(spec_index)]
    pub fn index(self) -> (i: u8)
        ensures
            i == self.spec_index(),
    {
        match self {
            Color::Red => 0,
            Color::Blue => 1,
        }
    }
}

/// The other color.
pub fn opponent_of(color: Color) -> (other: Color)
    ensures
        other == color.opponent(),
{
    match color {
        Color::Red => Color::Blue,
        _ => Color::Red,
    }
}

/// A move: an existing stone of the mover, a new stone diagonally next to it, and a second
/// stone orthogonally next to the new one.
#[derive(Debug, PartialEq, Eq, Clone, Copy, Structural)]
pub struct Move(pub Coord, pub Coord, pub Coord);

impl Move {
    /// Direction of the first root segment.
    pub open spec fn first_dir(self) -> Dir {
        dir_between(self.0, self.1)
    }

    /// Direction of the second root segment.
    pub open spec fn second_dir(self) -> Dir {
        dir_between(self.1, self.2)
    }

    /// The geometry of a move: a diagonal step, then an axis-aligned step that shares one
    /// component with the diagonal.
    pub open spec fn well_shaped(self) -> bool {
        let d1 = self.first_dir();
        let d2 = self.second_dir();
        &&& -1 <= self.1.x - self.0.x <= 1 && -1 <= self.1.y - self.0.y <= 1
        &&& -1 <= self.2.x - self.1.x <= 1 && -1 <= self.2.y - self.1.y <= 1
        &&& d1.diagonal()
        &&& (d2 == Dir(d1.0, 0) || d2 == Dir(0, d1.1))
    }
}

/// The four nodes that the dual graph has in each unit of the board, one per side.
#[derive(Debug, PartialEq, Eq, Clone, Copy, Structural)]
pub enum NodePos {
    N,
    E,
    S,
    W,
}

impl NodePos {
    pub open spec fn spec_offset(self) -> int {
        match self {
            NodePos::N => 0,
            NodePos::E => 1,
            NodePos::S => 2,
            NodePos::W => 3,
        }
    }

    /// Place of the node among the four of its unit.
    pub fn offset(self) -> (k: usize)
        ensures
            k == self.spec_offset(),
    {
        match self {
            NodePos::N => 0,
            NodePos::E => 1,
            NodePos::S => 2,
            NodePos::W => 3,
        }
    }
}

} // verus!
