use vstd::prelude::*;
use crate::entities::{Coord, PieceType, Rotation};

verus! {

broadcast use vstd::array::group_array_axioms;

/// How far from the origin an anchor may lie; every game position lies well
/// inside this range.
pub const ANCHOR_LIMIT: i32 = 1_000_000;

pub open spec fn c(x: int, y: int) -> Coord {
    Coord { x: x as i32, y: y as i32 }
}

/// The offsets of a piece type's cells from its anchor, before any rotation.
pub open spec fn spec_blocks(t: PieceType) -> Seq<Coord> {
    match t {
        PieceType::I => seq![c(0, -2), c(0, -1), c(0, 0), c(0, 1)],
        PieceType::O => seq![c(0, 0), c(0, 1), c(1, 0), c(1, 1)],
        PieceType::T => seq![c(0, 0), c(-1, 0), c(1, 0), c(0, 1)],
        PieceType::S => seq![c(0, 0), c(-1, 0), c(0, 1), c(1, 1)],
        PieceType::Z => seq![c(0, 0), c(0, 1), c(-1, 1), c(1, 0)],
        PieceType::J => seq![c(0, 0), c(-1, 0), c(-1, 1), c(1, 0)],
        PieceType::L => seq![c(0, 0), c(-1, 0), c(1, 0), c(1, 1)],
    }
}

/// One clockwise quarter turn of an offset: the matrix `[[0, -1], [1, 0]]`
/// applied by columns, `(x, y) -> (y, -x)`.
pub open spec fn cw(p: Coord) -> Coord {
    Coord { x: p.y, y: (-p.x) as i32 }
}

/// One counterclockwise quarter turn, the inverse of `cw`: `(x, y) -> (-y, x)`.
pub open spec fn ccw(p: Coord) -> Coord {
    Coord { x: (-p.y) as i32, y: p.x }
}

pub open spec fn turn(p: Coord, r: Rotation) -> Coord {
    match r {
        Rotation::Clockwise => cw(p),
        Rotation::Counterclockwise => ccw(p),
    }
}

/// `n` clockwise quarter turns, `0 <= n < 4`.
pub open spec fn turned(p: Coord, n: int) -> Coord {
    if n == 0 {
        p
    } else if n == 1 {
        cw(p)
    } else if n == 2 {
        Coord { x: (-p.x) as i32, y: (-p.y) as i32 }
    } else {
        ccw(p)
    }
}

/// The rotation index after one turn.
pub open spec fn next_idx(idx: int, r: Rotation) -> int {
    match r {
        Rotation::Clockwise => if idx == 3 { 0 } else { idx + 1 },
        Rotation::Counterclockwise => if idx == 0 { 3 } else { idx - 1 },
    }
}

pub open spec fn small(p: Coord) -> bool {
    -2 <= p.x <= 2 && -2 <= p.y <= 2
}

/// The array holding the four offsets of `s`.
pub open spec fn array_of(s: Seq<Coord>) -> [Coord; 4] {
    vstd::array::spec_array_update(
        vstd::array::spec_array_update(
            vstd::array::spec_array_update(
                vstd::array::spec_array_update(vstd::pervasive::arbitrary(), 0, s[0]),
                1,
                s[1],
            ),
            2,
            s[2],
        ),
        3,
        s[3],
    )
}

/// The piece type numbered `n`: I, O, T, S, Z, J, L for 0 to 6.
pub open spec fn spec_type_of(n: int) -> PieceType {
    if n == 0 {
        PieceType::I
    } else if n == 1 {
        PieceType::O
    } else if n == 2 {
        PieceType::T
    } else if n == 3 {
        PieceType::S
    } else if n == 4 {
        PieceType::Z
    } else if n == 5 {
        PieceType::J
    } else {
        PieceType::L
    }
}

/// The piece type numbered `n` (see `spec_type_of`).
pub fn piece_type_of(n: u32) -> (r: PieceType)
    requires
        n < 7,
    ensures
        r == spec_type_of(n as int),
{
    match n {
        0 => PieceType::I,
        1 => PieceType::O,
        2 => PieceType::T,
        3 => PieceType::S,
        4 => PieceType::Z,
        5 => PieceType::J,
        _ => PieceType::L,
    }
}

/// A falling piece: its type, its anchor on the board, the offsets of its
/// four cells from the anchor, and how many clockwise quarter turns those
/// offsets are from the type's base shape.
#[derive(Clone, Copy, PartialEq, Eq, Hash, Debug)]
pub struct Piece {
    pub block_type: PieceType,
    pub anchor_point: Coord,
    pub block_positions: [Coord; 4],
    pub rotation_idx: usize,
}

/// The offsets of a piece type's cells from its anchor, before any rotation.
pub fn get_blocks(block_type: PieceType) -> (r: [Coord; 4])
    ensures
        r@ == spec_blocks(block_type),
{
    let r = match block_type {
        PieceType::I => [Coord::new(0, -2), Coord::new(0, -1), Coord::new(0, 0), Coord::new(0, 1)],
        PieceType::O => [Coord::new(0, 0), Coord::new(0, 1), Coord::new(1, 0), Coord::new(1, 1)],
        PieceType::T => [Coord::new(0, 0), Coord::new(-1, 0), Coord::new(1, 0), Coord::new(0, 1)],
        PieceType::S => [Coord::new(0, 0), Coord::new(-1, 0), Coord::new(0, 1), Coord::new(1, 1)],
        PieceType::Z => [Coord::new(0, 0), Coord::new(0, 1), Coord::new(-1, 1), Coord::new(1, 0)],
        PieceType::J => [Coord::new(0, 0), Coord::new(-1, 0), Coord::new(-1, 1), Coord::new(1, 0)],
        PieceType::L => [Coord::new(0, 0), Coord::new(-1, 0), Coord::new(1, 0), Coord::new(1, 1)],
    };
    assert(r@ =~= spec_blocks(block_type));
    r
}

/// Relies on rand's `Rng::gen_range` on the thread-local generator: a value
/// drawn from `0..n`, which is not empty.
#[verifier::external_body]
fn random_below(n: u32) -> (r: u32)
    requires
        n > 0,
    ensures
        r < n,
{
    rand::Rng::gen_range(&mut rand::thread_rng(), 0..n)
}

impl Piece {
    /// The offsets are the base shape turned `rotation_idx` times, and the
    /// anchor lies within `ANCHOR_LIMIT`.
    pub open spec fn wf(self) -> bool {
        &&& self.rotation_idx < 4
        &&& forall|i: int|
            0 <= i < 4 ==> #[trigger] self.block_positions@[i] == turned(
                spec_blocks(self.block_type)[i],
                self.rotation_idx as int,
            )
        &&& -ANCHOR_LIMIT <= self.anchor_point.x <= ANCHOR_LIMIT
        &&& -ANCHOR_LIMIT <= self.anchor_point.y <= ANCHOR_LIMIT
    }

    /// Column of cell `i` on the board.
    pub open spec fn cell_x(self, i: int) -> int {
        self.anchor_point.x + self.block_positions@[i].x
    }

    /// Row of cell `i` on the board.
    pub open spec fn cell_y(self, i: int) -> int {
        self.anchor_point.y + self.block_positions@[i].y
    }

    /// The piece moved by `(dx, dy)`.
    pub open spec fn shifted(self, dx: int, dy: int) -> Piece {
        Piece {
            anchor_point: Coord {
                x: (self.anchor_point.x + dx) as i32,
                y: (self.anchor_point.y + dy) as i32,
            },
            ..self
        }
    }

    /// The piece that `new` makes.
    pub open spec fn spawned(t: PieceType) -> Piece {
        Piece {
            block_type: t,
            anchor_point: c(4, 21),
            block_positions: array_of(spec_blocks(t)),
            rotation_idx: 0,
        }
    }

    /// A piece of the given type at the spawn anchor `(4, 21)`, unrotated.
    pub fn new(block_type: PieceType) -> (r: Piece)
        ensures
            r == Piece::spawned(block_type),
            r.wf(),
            r.block_type == block_type,
            r.anchor_point == c(4, 21),
            r.rotation_idx == 0,
            r.block_positions@ == spec_blocks(block_type),
    {
        let r = Piece {
            block_type,
            anchor_point: Coord::new(4, 21),
            block_positions: get_blocks(block_type),
            rotation_idx: 0,
        };
        assert(r.block_positions =~= array_of(spec_blocks(block_type)));
        r
    }

    /// A freshly spawned piece (see `new`) of a type drawn uniformly from the
    /// seven, numbered as `piece_type_of` numbers them.
    pub fn random() -> (r: Piece)
        ensures
            r == Piece::spawned(r.block_type),
            exists|n: int| 0 <= n < 7 && r.block_type == spec_type_of(n),
            r.wf(),
            r.anchor_point == c(4, 21),
            r.rotation_idx == 0,
            r.block_positions@ == spec_blocks(r.block_type),
    {
        let n = random_below(7);
        Piece::new(piece_type_of(n))
    }

    /// The board positions of the four cells.
    pub fn iter_blocks(&self) -> (r: [Coord; 4])
        requires
            self.wf(),
        ensures
            forall|i: int|
                0 <= i < 4 ==> #[trigger] r@[i].x == self.cell_x(i) && r@[i].y == self.cell_y(i),
    {
        proof {
            lemma_wf_small(*self);
        }
        [
            self.anchor_point.add(self.block_positions[0]),
            self.anchor_point.add(self.block_positions[1]),
            self.anchor_point.add(self.block_positions[2]),
            self.anchor_point.add(self.block_positions[3]),
        ]
    }

    /// Turns the offsets a quarter turn with the rotation matrix and steps
    /// `rotation_idx` modulo 4. The anchor stays.
    pub fn rotate(&mut self, rotation: Rotation)
        requires
            old(self).wf(),
        ensures
            final(self).wf(),
            final(self).block_type == old(self).block_type,
            final(self).anchor_point == old(self).anchor_point,
            final(self).rotation_idx == next_idx(old(self).rotation_idx as int, rotation),
            forall|i: int|
                0 <= i < 4 ==> #[trigger] final(self).block_positions@[i] == turn(
                    old(self).block_positions@[i],
                    rotation,
                ),
    {
        proof {
            lemma_wf_small(*self);
        }
        let ghost before = *self;
        let mut i: usize = 0;
        while i < 4
            invariant
                i <= 4,
                self.block_type == before.block_type,
                self.anchor_point == before.anchor_point,
                self.rotation_idx == before.rotation_idx,
                forall|j: int| i <= j < 4 ==> self.block_positions@[j] == before.block_positions@[j],
                forall|j: int|
                    0 <= j < i ==> #[trigger] self.block_positions@[j] == turn(
                        before.block_positions@[j],
                        rotation,
                    ),
                forall|j: int| 0 <= j < 4 ==> small(#[trigger] before.block_positions@[j]),
            decreases 4 - i,
        {
            let p = self.block_positions[i];
            assert(p == before.block_positions@[i as int]);
            assert(small(before.block_positions@[i as int]));
            let turned_p = match rotation {
                Rotation::Clockwise => Coord::new(p.y, -p.x),
                Rotation::Counterclockwise => Coord::new(-p.y, p.x),
            };
            self.block_positions[i] = turned_p;
            i += 1;
        }
        match rotation {
            Rotation::Clockwise => {
                if self.rotation_idx == 3 {
                    self.rotation_idx = 0;
                } else {
                    self.rotation_idx += 1;
                }
            },
            Rotation::Counterclockwise => {
                if self.rotation_idx == 0 {
                    self.rotation_idx = 3;
                } else {
                    self.rotation_idx -= 1;
                }
            },
        }
        proof {
            assert forall|j: int| 0 <= j < 4 implies #[trigger] self.block_positions@[j] == turned(
                spec_blocks(self.block_type)[j],
                self.rotation_idx as int,
            ) by {
                assert(before.block_positions@[j] == turned(
                    spec_blocks(before.block_type)[j],
                    before.rotation_idx as int,
                ));
            }
        }
    }
}

/// The offsets of a well-formed piece lie within two of the anchor.
pub proof fn lemma_wf_small(p: Piece)
    requires
        p.wf(),
    ensures
        forall|i: int| 0 <= i < 4 ==> small(#[trigger] p.block_positions@[i]),
{
    assert forall|i: int| 0 <= i < 4 implies small(#[trigger] p.block_positions@[i]) by {
        let b = spec_blocks(p.block_type);
        assert(small(b[i]));
    }
}

} // verus!
