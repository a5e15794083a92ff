use vstd::prelude::*;

verus! {

/// An integer position (or displacement) on the board plane.
#[derive(Clone, Copy, PartialEq, Eq, Structural, Hash, Debug)]
pub struct Coord {
    pub x: i32,
    pub y: i32,
}

impl Coord {
    pub fn new(x: i32, y: i32) -> (r: Coord)
        ensures
            r.x == x,
            r.y == y,
    {
        Coord { x, y }
    }

    /// Component-wise sum.
    pub fn add(self, rhs: Coord) -> (r: Coord)
        requires
            i32::MIN <= self.x + rhs.x <= i32::MAX,
            i32::MIN <= self.y + rhs.y <= i32::MAX,
        ensures
            r.x == self.x + rhs.x,
            r.y == self.y + rhs.y,
    {
        Coord { x: self.x + rhs.x, y: self.y + rhs.y }
    }

    /// Component-wise difference.
    pub fn sub(self, rhs: Coord) -> (r: Coord)
        requires
            i32::MIN <= self.x - rhs.x <= i32::MAX,
            i32::MIN <= self.y - rhs.y <= i32::MAX,
        ensures
            r.x == self.x - rhs.x,
            r.y == self.y - rhs.y,
    {
        Coord { x: self.x - rhs.x, y: self.y - rhs.y }
    }
}

impl From<(i32, i32)> for Coord {
    fn from(value: (i32, i32)) -> Coord {
        Coord { x: value.0, y: value.1 }
    }
}

impl vstd::std_specs::convert::FromSpecImpl<(i32, i32)> for Coord {
    open spec fn obeys_from_spec() -> bool {
        true
    }

    open spec fn from_spec(v: (i32, i32)) -> Coord {
        Coord { x: v.0, y: v.1 }
    }
}

/// The seven shapes of falling piece.
#[derive(Clone, Copy, PartialEq, Eq, Structural, Hash, Debug)]
pub enum PieceType {
    I,
    O,
    T,
    S,
    Z,
    J,
    L,
}

/// The same seven shapes, under the name the renderer uses for a cell's colour.
#[derive(Clone, Copy, PartialEq, Eq, Structural, Hash, Debug)]
pub enum BlockType {
    I,
    O,
    T,
    S,
    Z,
    J,
    L,
}

/// Every direction a piece can be shifted in.
#[derive(Clone, Copy, PartialEq, Eq, Structural, Hash, Debug)]
pub enum Direction {
    Left,
    Right,
    Down,
    Stay,
}

pub open spec fn spec_delta(d: Direction) -> (int, int) {
    match d {
        Direction::Left => (-1, 0),
        Direction::Right => (1, 0),
        Direction::Down => (0, -1),
        Direction::Stay => (0, 0),
    }
}

impl Direction {
    /// The unit vector of the direction.
    pub fn delta(self) -> (r: Coord)
        ensures
            (r.x as int, r.y as int) == spec_delta(self),
    {
        match self {
            Direction::Left => Coord::new(-1, 0),
            Direction::Right => Coord::new(1, 0),
            Direction::Down => Coord::new(0, -1),
            Direction::Stay => Coord::new(0, 0),
        }
    }
}

/// Every kind of collision a shifted piece can run into: one of the three
/// borders, or a block already on the board.
#[derive(Clone, Copy, PartialEq, Eq, Structural, Hash, Debug)]
pub enum Collision {
    Free,
    LeftBorder,
    RightBorder,
    BottomBorder,
    Block,
}

#[derive(Clone, Copy, PartialEq, Eq, Structural, Hash, Debug)]
pub enum Rotation {
    Counterclockwise,
    Clockwise,
}

} // verus!
