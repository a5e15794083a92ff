use vstd::prelude::*;
use crate::board::{Board, H, W};
use crate::entities::{Coord, PieceType};
use crate::game::Game;

verus! {

/// Builds a game over a board with chosen cells filled.
pub struct GameBuilder {
    pub board: Board,
}

impl GameBuilder {
    pub fn new() -> (r: GameBuilder)
        ensures
            r.board.is_empty(),
    {
        GameBuilder { board: Board::new() }
    }

    /// Fills the cell at `coord` with a block of the given type.
    pub fn add_piece(self, piece: PieceType, coord: Coord) -> (r: GameBuilder)
        requires
            0 <= coord.x < W,
            0 <= coord.y < H,
        ensures
            forall|x: int, y: int|
                #[trigger] r.board.at(x, y) == if x == coord.x && y == coord.y {
                    Some(piece)
                } else {
                    self.board.at(x, y)
                },
    {
        let mut b = self;
        b.board.set(Some(piece), coord);
        b
    }

    /// A fresh game (see `Game::new`) over the built board.
    pub fn build(self) -> (r: Game)
        ensures
            r.wf(),
            r.board == self.board,
            r.score.is_zero(),
    {
        let mut game = Game::new();
        game.board = self.board;
        game
    }
}


pub open spec fn is_blank(b: u8) -> bool {
    b == 32 || b == 9 || b == 10 || b == 13
}

/// The text with its spaces, tabs and line breaks taken out.
pub open spec fn strip(s: Seq<u8>) -> Seq<u8>
    decreases s.len(),
{
    if s.len() == 0 {
        s
    } else if is_blank(s.last()) {
        strip(s.drop_last())
    } else {
        strip(s.drop_last()).push(s.last())
    }
}

/// What a cell letter stands for: `x` an empty cell, `i o t s z j l` a
/// block of that type; any other byte is no cell.
pub open spec fn cell_of(b: u8) -> Option<Option<PieceType>> {
    if b == 120 {
        Some(None)
    } else if b == 105 {
        Some(Some(PieceType::I))
    } else if b == 111 {
        Some(Some(PieceType::O))
    } else if b == 116 {
        Some(Some(PieceType::T))
    } else if b == 115 {
        Some(Some(PieceType::S))
    } else if b == 122 {
        Some(Some(PieceType::Z))
    } else if b == 106 {
        Some(Some(PieceType::J))
    } else if b == 108 {
        Some(Some(PieceType::L))
    } else {
        None
    }
}

/// Rows of a stripped picture: `|`, ten cell letters, `|`, at most `H` of
/// them.
pub open spec fn valid_picture(t: Seq<u8>) -> bool {
    &&& t.len() % 12 == 0
    &&& t.len() / 12 <= H
    &&& forall|r: int| 0 <= r < t.len() / 12 ==> #[trigger] row_framed(t, r)
    &&& forall|r: int, x: int| 0 <= r < t.len() / 12 && 0 <= x < W ==> (#[trigger] cell_of(t[r * 12 + 1 + x])).is_some()
}

/// Row `r` of a stripped picture opens and closes with `|`.
pub open spec fn row_framed(t: Seq<u8>, r: int) -> bool {
    t[r * 12] == 124u8 && t[r * 12 + 11] == 124u8
}

/// The cell `(x, y)` that a picture shows: its last row is row 0.
pub open spec fn picture_cell(t: Seq<u8>, x: int, y: int) -> Option<PieceType> {
    let rows = t.len() / 12;
    if 0 <= x < W && 0 <= y < rows {
        cell_of(t[(rows - 1 - y) * 12 + 1 + x]).unwrap()
    } else {
        None
    }
}

proof fn lemma_valid_picture(t: Seq<u8>)
    requires
        t.len() % 12 == 0,
        t.len() / 12 <= H,
        forall|r: int| 0 <= r < t.len() / 12 ==> #[trigger] row_framed(t, r),
        forall|r: int, x: int| 0 <= r < t.len() / 12 && 0 <= x < W ==> (#[trigger] cell_of(t[r * 12 + 1 + x])).is_some(),
    ensures
        valid_picture(t),
{
}

fn cell_letter(b: u8) -> (r: Option<Option<PieceType>>)
    ensures
        r == cell_of(b),
{
    match b {
        120 => Some(None),
        105 => Some(Some(PieceType::I)),
        111 => Some(Some(PieceType::O)),
        116 => Some(Some(PieceType::T)),
        115 => Some(Some(PieceType::S)),
        122 => Some(Some(PieceType::Z)),
        106 => Some(Some(PieceType::J)),
        108 => Some(Some(PieceType::L)),
        _ => None,
    }
}

/// A fresh game (see `Game::new`) over the board that a text picture shows:
/// rows from top to bottom, each `|` and ten cell letters and `|` (see
/// `cell_of`), with any spaces and line breaks between; the last row is row
/// 0. `None` when the text is not such a picture.
pub fn gen_game(text: &[u8]) -> (r: Option<Game>)
    ensures
        r.is_some() == valid_picture(strip(text@)),
        r matches Some(g) ==> g.wf() && g.score.is_zero() && forall|x: int, y: int|
            0 <= x < W && 0 <= y < H ==> #[trigger] g.board.at(x, y) == picture_cell(strip(text@), x, y),
{
    let mut t: Vec<u8> = Vec::new();
    let mut i: usize = 0;
    while i < text.len()
        invariant
            i <= text@.len(),
            t@ == strip(text@.subrange(0, i as int)),
        decreases text@.len() - i,
    {
        proof {
            assert(text@.subrange(0, i as int + 1).drop_last() =~= text@.subrange(0, i as int));
        }
        let b = text[i];
        if !(b == 32 || b == 9 || b == 10 || b == 13) {
            t.push(b);
        }
        i += 1;
    }
    proof {
        assert(text@.subrange(0, text@.len() as int) =~= text@);
    }
    if t.len() % 12 != 0 || t.len() / 12 > H {
        return None;
    }
    let rows = t.len() / 12;
    let mut builder = GameBuilder::new();
    let mut r: usize = 0;
    while r < rows
        invariant
            t@ == strip(text@),
            rows == t@.len() / 12,
            t@.len() % 12 == 0,
            rows <= H,
            r <= rows,
            forall|rr: int| 0 <= rr < r ==> #[trigger] row_framed(t@, rr),
            forall|rr: int, x: int| 0 <= rr < r && 0 <= x < W ==> (#[trigger] cell_of(t@[rr * 12 + 1 + x])).is_some(),
            forall|x: int, y: int|
                #[trigger] builder.board.at(x, y) == if 0 <= x < W && rows - r <= y < rows {
                    picture_cell(t@, x, y)
                } else {
                    None::<PieceType>
                },
        decreases rows - r,
    {
        if t[r * 12] != 124 || t[r * 12 + 11] != 124 {
            assert(!row_framed(t@, r as int));
            return None;
        }
        let y = rows - 1 - r;
        let mut x: usize = 0;
        while x < W
            invariant
                t@ == strip(text@),
                rows == t@.len() / 12,
                t@.len() % 12 == 0,
                rows <= H,
                r < rows,
                y == rows - 1 - r,
                x <= W,
                row_framed(t@, r as int),
                forall|rr: int| 0 <= rr < r ==> #[trigger] row_framed(t@, rr),
                forall|rr: int, xx: int| 0 <= rr < r && 0 <= xx < W ==> (#[trigger] cell_of(t@[rr * 12 + 1 + xx])).is_some(),
                forall|xx: int| 0 <= xx < x ==> (#[trigger] cell_of(t@[r * 12 + 1 + xx])).is_some(),
                forall|xx: int, yy: int|
                    #[trigger] builder.board.at(xx, yy) == if 0 <= xx < W && ((rows - r <= yy < rows) || (yy == y && xx < x)) {
                        picture_cell(t@, xx, yy)
                    } else {
                        None::<PieceType>
                    },
            decreases W - x,
        {
            match cell_letter(t[r * 12 + 1 + x]) {
                None => {
                    return None;
                },
                Some(cell) => {
                    if let Some(piece) = cell {
                        builder = builder.add_piece(piece, Coord::new(x as i32, y as i32));
                    }
                },
            }
            x += 1;
        }
        proof {
            assert forall|rr: int| 0 <= rr < r + 1 implies #[trigger] row_framed(t@, rr) by {
                if rr == r {
                    assert(row_framed(t@, r as int));
                }
            }
        }
        r += 1;
    }
    proof {
        assert(r == rows);
        assert forall|rr: int| 0 <= rr < t@.len() / 12 implies #[trigger] row_framed(t@, rr) by {}
        assert forall|rr: int, x: int| 0 <= rr < t@.len() / 12 && 0 <= x < W implies (#[trigger] cell_of(
            t@[rr * 12 + 1 + x],
        )).is_some() by {}
        lemma_valid_picture(t@);
    }
    Some(builder.build())
}

} // verus!
