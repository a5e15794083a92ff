use vstd::prelude::*;
use crate::board::{
    count_from, empty_row, kept_rows, lemma_count_from_bound, lemma_kept_len, lemma_kept_origin, named_full_rows,
    without_rows, Board, Row, H, W,
};
use crate::entities::{spec_delta, Collision, Coord, Direction, PieceType, Rotation};
use crate::piece::{lemma_wf_small, small, turn, Piece, ANCHOR_LIMIT};
use crate::scoring::Score;
use crate::srs::{get_offset_table, kick_table, lemma_kick_table_small};

verus! {

broadcast use vstd::array::group_array_axioms;

/// Number of visible rows; a locked cell in row `VISIBLE_H` means the game is lost.
pub const VISIBLE_H: i32 = 20;

/// The cell at `(x, y)` of a board given by its rows; `None` off the grid.
pub open spec fn cell_at(rows: Seq<Row>, x: int, y: int) -> Option<PieceType> {
    if 0 <= x < W && 0 <= y < H {
        rows[y][x]
    } else {
        None
    }
}

/// The collision met by the cells `i..4` of `p` moved by `(dx, dy)`, taken
/// in order; for each cell the left border, the right border, the bottom
/// border and an occupied cell are checked in that order.
pub open spec fn collision_from(rows: Seq<Row>, p: Piece, dx: int, dy: int, i: int) -> Collision
    decreases 4 - i,
{
    if i >= 4 {
        Collision::Free
    } else {
        let x = p.cell_x(i) + dx;
        let y = p.cell_y(i) + dy;
        if x < 0 {
            Collision::LeftBorder
        } else if x >= W {
            Collision::RightBorder
        } else if y < 0 {
            Collision::BottomBorder
        } else if cell_at(rows, x, y).is_some() {
            Collision::Block
        } else {
            collision_from(rows, p, dx, dy, i + 1)
        }
    }
}

pub open spec fn collision(rows: Seq<Row>, p: Piece, dx: int, dy: int) -> Collision {
    collision_from(rows, p, dx, dy, 0)
}

/// Every cell of the piece lies on the grid.
pub open spec fn inside(p: Piece) -> bool {
    forall|i: int| 0 <= i < 4 ==> 0 <= #[trigger] p.cell_x(i) < W && 0 <= p.cell_y(i) < H
}

/// One of the piece's cells is at `(x, y)`.
pub open spec fn covers(p: Piece, x: int, y: int) -> bool {
    ||| (p.cell_x(0) == x && p.cell_y(0) == y)
    ||| (p.cell_x(1) == x && p.cell_y(1) == y)
    ||| (p.cell_x(2) == x && p.cell_y(2) == y)
    ||| (p.cell_x(3) == x && p.cell_y(3) == y)
}

/// The rows with the piece's cells written into them.
pub open spec fn stamp(rows: Seq<Row>, p: Piece) -> Seq<Row> {
    Seq::new(
        H as nat,
        |y: int|
            Seq::new(
                W as nat,
                |x: int|
                    if covers(p, x, y) {
                        Some(p.block_type)
                    } else {
                        rows[y][x]
                    },
            ),
    )
}

/// The rows of the piece's four cells, in cell order.
pub open spec fn piece_rows(p: Piece) -> Seq<i32> {
    seq![p.cell_y(0) as i32, p.cell_y(1) as i32, p.cell_y(2) as i32, p.cell_y(3) as i32]
}

/// The piece turned a quarter turn about its anchor (offsets and index only).
pub open spec fn turned_piece(p: Piece, r: Rotation) -> Piece {
    Piece {
        block_positions: vstd::array::spec_array_update(
            vstd::array::spec_array_update(
                vstd::array::spec_array_update(
                    vstd::array::spec_array_update(
                        p.block_positions,
                        0,
                        turn(p.block_positions@[0], r),
                    ),
                    1,
                    turn(p.block_positions@[1], r),
                ),
                2,
                turn(p.block_positions@[2], r),
            ),
            3,
            turn(p.block_positions@[3], r),
        ),
        rotation_idx: crate::piece::next_idx(p.rotation_idx as int, r) as usize,
        ..p
    }
}

/// The first of the kick candidates `k..` of the turned piece `rp` (turned
/// from index `from`) that collides with nothing and stays on the grid.
pub open spec fn first_kick(rows: Seq<Row>, rp: Piece, from: int, k: int) -> Option<Piece>
    decreases kick_table(rp.block_type).len() - k,
{
    if k < 0 || k >= kick_table(rp.block_type).len() {
        None
    } else {
        let e = kick_table(rp.block_type)[k];
        let cand = rp.shifted(
            e[from].x - e[rp.rotation_idx as int].x,
            e[from].y - e[rp.rotation_idx as int].y,
        );
        if collision(rows, cand, 0, 0) == Collision::Free && inside(cand) {
            Some(cand)
        } else {
            first_kick(rows, rp, from, k + 1)
        }
    }
}

/// A game as plain values: the rows of the board, the falling piece, the
/// queued piece and the score.
pub struct GameView {
    pub rows: Seq<Row>,
    pub piece: Piece,
    pub next_piece: Piece,
    pub score: Score,
}

impl GameView {
    pub open spec fn free_after(self, dx: int, dy: int) -> bool {
        collision(self.rows, self.piece, dx, dy) == Collision::Free
    }

    pub open spec fn with_piece(self, p: Piece) -> GameView {
        GameView { piece: p, ..self }
    }

    /// The piece moved by `(dx, dy)` if nothing is in the way; else unchanged.
    pub open spec fn moved(self, dx: int, dy: int) -> GameView {
        if self.free_after(dx, dy) {
            self.with_piece(self.piece.shifted(dx, dy))
        } else {
            self
        }
    }

    /// The rows that the lock of the piece clears.
    pub open spec fn cleared(self) -> Set<int> {
        named_full_rows(stamp(self.rows, self.piece), piece_rows(self.piece))
    }

    pub open spec fn lines_cleared(self) -> nat {
        count_from(self.cleared(), 0)
    }

    /// The piece locked where it is: its cells written into the board, the
    /// full rows among its rows cleared, the score updated, and the queued
    /// piece made current (the queue itself is refilled by the caller).
    pub open spec fn locked(self) -> GameView {
        GameView {
            rows: without_rows(stamp(self.rows, self.piece), self.cleared()),
            piece: self.next_piece,
            next_piece: self.next_piece,
            score: self.score.after_lock(self.lines_cleared()),
        }
    }

    /// One step down, or the lock when the step is blocked.
    pub open spec fn fell(self) -> GameView {
        if self.free_after(0, -1) {
            self.with_piece(self.piece.shifted(0, -1))
        } else {
            self.locked()
        }
    }

    /// The piece moved down as far as it goes.
    pub open spec fn landed(self) -> GameView
        decreases self.piece.anchor_point.y + 3,
    {
        if self.free_after(0, -1) && self.piece.anchor_point.y > -3 {
            self.with_piece(self.piece.shifted(0, -1)).landed()
        } else {
            self
        }
    }

    pub open spec fn dropped(self) -> GameView {
        self.landed().locked()
    }

    /// The rotation with the wall-kick search: the first fitting candidate,
    /// or no change when none fits.
    pub open spec fn rotated(self, r: Rotation) -> GameView {
        match first_kick(
            self.rows,
            turned_piece(self.piece, r),
            self.piece.rotation_idx as int,
            0,
        ) {
            Some(p) => self.with_piece(p),
            None => self,
        }
    }

    /// A locked cell stands at or above the visible height: in one of the
    /// hidden rows `VISIBLE_H..H`.
    pub open spec fn is_lost(self) -> bool {
        exists|x: int, y: int|
            0 <= x < W && VISIBLE_H <= y < H && (#[trigger] cell_at(self.rows, x, y)).is_some()
    }
}

/// The whole state of one game.
#[derive(Clone, Copy, PartialEq, Eq, Hash, Debug)]
pub struct Game {
    pub board: Board,
    pub piece: Piece,
    pub next_piece: Piece,
    pub width: i32,
    pub height: i32,
    pub score: Score,
}

impl View for Game {
    type V = GameView;

    open spec fn view(&self) -> GameView {
        GameView {
            rows: self.board.rows(),
            piece: self.piece,
            next_piece: self.next_piece,
            score: self.score,
        }
    }
}

/// A free cell position of the shifted piece lies on the grid's columns and
/// not below the bottom row.
pub proof fn lemma_free_bounds(rows: Seq<Row>, p: Piece, dx: int, dy: int, i: int)
    requires
        0 <= i <= 4,
        collision_from(rows, p, dx, dy, i) == Collision::Free,
    ensures
        forall|j: int|
            i <= j < 4 ==> 0 <= #[trigger] p.cell_x(j) + dx < W && 0 <= p.cell_y(j) + dy
                && cell_at(rows, p.cell_x(j) + dx, p.cell_y(j) + dy).is_none(),
    decreases 4 - i,
{
    if i < 4 {
        lemma_free_bounds(rows, p, dx, dy, i + 1);
    }
}

impl Game {
    /// The pieces are well formed and on the grid, and the board has the
    /// fixed size.
    pub open spec fn wf(self) -> bool {
        &&& self.piece.wf()
        &&& self.next_piece.wf()
        &&& inside(self.piece)
        &&& inside(self.next_piece)
        &&& self.width == W
        &&& self.height == VISIBLE_H
    }

    /// Which collision, if any, the piece meets after a move in direction
    /// `dir` (`Stay` checks it where it is).
    pub fn get_collision_after_move(&self, dir: Direction, piece: &Piece) -> (r: Collision)
        requires
            self.width == W,
            piece.wf(),
        ensures
            r == collision(self@.rows, *piece, spec_delta(dir).0, spec_delta(dir).1),
    {
        proof {
            lemma_wf_small(*piece);
        }
        let d = dir.delta();
        let blocks = piece.iter_blocks();
        let mut i: usize = 0;
        while i < 4
            invariant
                i <= 4,
                self.width == W,
                (d.x as int, d.y as int) == spec_delta(dir),
                forall|j: int|
                    0 <= j < 4 ==> #[trigger] blocks@[j].x == piece.cell_x(j) && blocks@[j].y
                        == piece.cell_y(j),
                -ANCHOR_LIMIT <= piece.anchor_point.x <= ANCHOR_LIMIT,
                -ANCHOR_LIMIT <= piece.anchor_point.y <= ANCHOR_LIMIT,
                forall|j: int| 0 <= j < 4 ==> small(#[trigger] piece.block_positions@[j]),
                collision(self@.rows, *piece, spec_delta(dir).0, spec_delta(dir).1)
                    == collision_from(self@.rows, *piece, spec_delta(dir).0, spec_delta(dir).1, i as int),
            decreases 4 - i,
        {
            assert(small(piece.block_positions@[i as int]));
            let b = blocks[i];
            let x = b.x + d.x;
            let y = b.y + d.y;
            if x < 0 {
                return Collision::LeftBorder;
            }
            if x >= self.width {
                return Collision::RightBorder;
            }
            if y < 0 {
                return Collision::BottomBorder;
            }
            let target = self.board.get(Coord::new(x, y));
            assert(target == cell_at(self@.rows, x as int, y as int));
            if target.is_some() {
                return Collision::Block;
            }
            i += 1;
        }
        Collision::Free
    }
}


/// The piece covers `(x, y)` with one of its cells `0..n`.
pub open spec fn covers_first(p: Piece, x: int, y: int, n: int) -> bool
    decreases n,
{
    if n <= 0 {
        false
    } else {
        covers_first(p, x, y, n - 1) || (p.cell_x(n - 1) == x && p.cell_y(n - 1) == y)
    }
}

/// A piece at the spawn anchor with its base shape lies on the grid.
pub proof fn lemma_spawn_inside(p: Piece)
    requires
        p.wf(),
        p.anchor_point.x == 4,
        p.anchor_point.y == 21,
        p.rotation_idx == 0,
    ensures
        inside(p),
{
    assert forall|i: int| 0 <= i < 4 implies 0 <= #[trigger] p.cell_x(i) < W && 0 <= p.cell_y(i)
        < H by {
        assert(p.block_positions@[i] == crate::piece::turned(
            crate::piece::spec_blocks(p.block_type)[i],
            0,
        ));
    }
}

/// A well-formed piece on the grid moved to a free place (not upwards) is
/// still well formed and on the grid.
pub proof fn lemma_shift_inside(rows: Seq<Row>, p: Piece, dx: int, dy: int)
    requires
        p.wf(),
        inside(p),
        -1 <= dx <= 1,
        -1 <= dy <= 0,
        collision(rows, p, dx, dy) == Collision::Free,
    ensures
        p.shifted(dx, dy).wf(),
        inside(p.shifted(dx, dy)),
        forall|i: int|
            0 <= i < 4 ==> #[trigger] p.shifted(dx, dy).cell_x(i) == p.cell_x(i) + dx
                && p.shifted(dx, dy).cell_y(i) == p.cell_y(i) + dy,
{
    lemma_wf_small(p);
    lemma_free_bounds(rows, p, dx, dy, 0);
    assert(p.cell_x(0) == p.anchor_point.x + p.block_positions@[0].x);
    assert(small(p.block_positions@[0]));
    let q = p.shifted(dx, dy);
    assert forall|i: int| 0 <= i < 4 implies 0 <= #[trigger] q.cell_x(i) < W && 0 <= q.cell_y(i)
        < H by {
        assert(q.cell_x(i) == p.cell_x(i) + dx);
        assert(p.cell_x(i) + dx < W);
    }
}

/// A piece on the grid has its anchor close to the grid.
pub proof fn lemma_inside_anchor(p: Piece)
    requires
        p.wf(),
        inside(p),
    ensures
        -2 <= p.anchor_point.x <= W + 2,
        -2 <= p.anchor_point.y <= H + 2,
{
    lemma_wf_small(p);
    assert(p.cell_x(0) == p.anchor_point.x + p.block_positions@[0].x);
    assert(small(p.block_positions@[0]));
}

impl Game {
    /// Whether every cell of `piece` lies on the grid.
    fn is_inside(&self, piece: &Piece) -> (r: bool)
        requires
            piece.wf(),
        ensures
            r == inside(*piece),
    {
        proof {
            lemma_wf_small(*piece);
        }
        let blocks = piece.iter_blocks();
        let mut i: usize = 0;
        while i < 4
            invariant
                i <= 4,
                forall|j: int|
                    0 <= j < 4 ==> #[trigger] blocks@[j].x == piece.cell_x(j) && blocks@[j].y
                        == piece.cell_y(j),
                forall|j: int|
                    0 <= j < i ==> 0 <= #[trigger] piece.cell_x(j) < W && 0 <= piece.cell_y(j) < H,
            decreases 4 - i,
        {
            let b = blocks[i];
            if b.x < 0 || b.x >= W as i32 || b.y < 0 || b.y >= H as i32 {
                return false;
            }
            i += 1;
        }
        true
    }

    /// Moves the piece one column left, unless that collides.
    pub fn go_left(&mut self)
        requires
            old(self).wf(),
        ensures
            final(self).wf(),
            final(self)@ == old(self)@.moved(-1, 0),
            final(self).width == old(self).width,
            final(self).height == old(self).height,
    {
        if self.get_collision_after_move(Direction::Left, &self.piece) == Collision::Free {
            proof {
                lemma_shift_inside(self@.rows, self.piece, -1, 0);
                lemma_inside_anchor(self.piece);
            }
            self.piece.anchor_point.x = self.piece.anchor_point.x - 1;
        }
    }

    /// Moves the piece one column right, unless that collides.
    pub fn go_right(&mut self)
        requires
            old(self).wf(),
        ensures
            final(self).wf(),
            final(self)@ == old(self)@.moved(1, 0),
            final(self).width == old(self).width,
            final(self).height == old(self).height,
    {
        if self.get_collision_after_move(Direction::Right, &self.piece) == Collision::Free {
            proof {
                lemma_shift_inside(self@.rows, self.piece, 1, 0);
                lemma_inside_anchor(self.piece);
            }
            self.piece.anchor_point.x = self.piece.anchor_point.x + 1;
        }
    }

    /// Writes the cells of the falling piece into the board.
    fn set_piece_blocks_into_board(&mut self)
        requires
            old(self).wf(),
        ensures
            final(self).board.rows() == stamp(old(self).board.rows(), old(self).piece),
            final(self).piece == old(self).piece,
            final(self).next_piece == old(self).next_piece,
            final(self).score == old(self).score,
            final(self).width == old(self).width,
            final(self).height == old(self).height,
    {
        let ghost orig = *self;
        let blocks = self.piece.iter_blocks();
        assert(blocks@[0].x == orig.piece.cell_x(0));
        let t = self.piece.block_type;
        let mut i: usize = 0;
        while i < 4
            invariant
                i <= 4,
                orig.wf(),
                t == orig.piece.block_type,
                self.piece == orig.piece,
                self.next_piece == orig.next_piece,
                self.score == orig.score,
                self.width == orig.width,
                self.height == orig.height,
                forall|j: int|
                    0 <= j < 4 ==> #[trigger] blocks@[j].x == orig.piece.cell_x(j) && blocks@[j].y
                        == orig.piece.cell_y(j),
                forall|x: int, y: int|
                    #[trigger] self.board.at(x, y) == if covers_first(orig.piece, x, y, i as int) {
                        Some(t)
                    } else {
                        orig.board.at(x, y)
                    },
            decreases 4 - i,
        {
            assert(0 <= orig.piece.cell_x(i as int) < W && 0 <= orig.piece.cell_y(i as int) < H);
            self.board.set(Some(t), blocks[i]);
            i += 1;
        }
        proof {
            let want = stamp(orig.board.rows(), orig.piece);
            assert forall|y: int| 0 <= y < H implies #[trigger] self.board.rows()[y] == want[y] by {
                assert forall|x: int| 0 <= x < W implies #[trigger] self.board.rows()[y][x]
                    == want[y][x] by {
                    reveal_with_fuel(covers_first, 5);
                    assert(covers_first(orig.piece, x, y, 4) == covers(orig.piece, x, y));
                }
                assert(self.board.rows()[y] =~= want[y]);
            }
            assert(self.board.rows() =~= want);
        }
    }

    /// Locks the piece where it is: writes it into the board, clears the full
    /// rows among its rows, scores the lock, and makes the queued piece
    /// current. The queue is left as it is.
    fn lock_piece(&mut self)
        requires
            old(self).wf(),
            old(self).score.has_room(),
        ensures
            final(self).wf(),
            final(self)@ == old(self)@.locked(),
            final(self).width == old(self).width,
            final(self).height == old(self).height,
    {
        let ghost orig = *self;
        proof {
            lemma_wf_small(self.piece);
        }
        let blocks = self.piece.iter_blocks();
        self.set_piece_blocks_into_board();
        let mut ys: Vec<i32> = Vec::new();
        ys.push(blocks[0].y);
        ys.push(blocks[1].y);
        ys.push(blocks[2].y);
        ys.push(blocks[3].y);
        assert(blocks@[0].x == orig.piece.cell_x(0) && blocks@[1].x == orig.piece.cell_x(1));
        assert(blocks@[2].x == orig.piece.cell_x(2) && blocks@[3].x == orig.piece.cell_x(3));
        assert(ys@ =~= piece_rows(orig.piece));
        let n = self.board.delete_full_lines(ys);
        proof {
            lemma_count_from_bound(orig@.cleared(), 0);
        }
        self.score.on_lines_clear(n);
        self.score.on_drop();
        self.piece = self.next_piece;
        assert(self.score == orig.score.after_lock(orig@.lines_cleared()));
    }

    /// Replaces the falling piece with the queued one and queues a new
    /// random piece.
    pub fn reload_piece(&mut self)
        requires
            old(self).wf(),
        ensures
            final(self).wf(),
            final(self).piece == old(self).next_piece,
            final(self).next_piece == Piece::spawned(final(self).next_piece.block_type),
            final(self).board == old(self).board,
            final(self).score == old(self).score,
            final(self).width == old(self).width,
            final(self).height == old(self).height,
    {
        self.piece = self.next_piece;
        self.next_piece = Piece::random();
        proof {
            lemma_spawn_inside(self.next_piece);
        }
    }

    /// One step down, or, when that is blocked, the lock; the queue is left as
    /// it is.
    pub fn fall(&mut self)
        requires
            old(self).wf(),
            old(self).score.has_room(),
        ensures
            final(self).wf(),
            final(self)@ == old(self)@.fell(),
            old(self)@.free_after(0, -1) ==> final(self).board == old(self).board,
            final(self).width == old(self).width,
            final(self).height == old(self).height,
    {
        if self.get_collision_after_move(Direction::Down, &self.piece) == Collision::Free {
            proof {
                lemma_shift_inside(self@.rows, self.piece, 0, -1);
                lemma_inside_anchor(self.piece);
            }
            self.piece.anchor_point.y = self.piece.anchor_point.y - 1;
        } else {
            self.lock_piece();
        }
    }

    /// One step down; when that is blocked the piece locks and a new random
    /// piece is queued.
    pub fn go_down(&mut self)
        requires
            old(self).wf(),
            old(self).score.has_room(),
        ensures
            final(self).wf(),
            old(self)@.free_after(0, -1) ==> final(self)@ == old(self)@.fell(),
            !old(self)@.free_after(0, -1) ==> final(self)@ == (GameView {
                next_piece: final(self).next_piece,
                ..old(self)@.fell()
            }) && final(self).next_piece == Piece::spawned(final(self).next_piece.block_type),
            final(self).width == old(self).width,
            final(self).height == old(self).height,
    {
        if self.get_collision_after_move(Direction::Down, &self.piece) == Collision::Free {
            self.fall();
        } else {
            self.fall();
            self.next_piece = Piece::random();
            proof {
                lemma_spawn_inside(self.next_piece);
            }
        }
    }

    /// Moves the piece down as far as it goes.
    fn land(&mut self)
        requires
            old(self).wf(),
        ensures
            final(self).wf(),
            final(self)@ == old(self)@.landed(),
            final(self).board == old(self).board,
            final(self).next_piece == old(self).next_piece,
            final(self).score == old(self).score,
            final(self).width == old(self).width,
            final(self).height == old(self).height,
    {
        let ghost orig = *self;
        while self.get_collision_after_move(Direction::Down, &self.piece) == Collision::Free
            invariant
                self.wf(),
                self@.landed() == orig@.landed(),
                self.board == orig.board,
                self.next_piece == orig.next_piece,
                self.score == orig.score,
                self.width == orig.width,
                self.height == orig.height,
            decreases self.piece.anchor_point.y + 3,
        {
            proof {
                lemma_shift_inside(self@.rows, self.piece, 0, -1);
                lemma_inside_anchor(self.piece);
                lemma_inside_anchor(self.piece.shifted(0, -1));
            }
            self.piece.anchor_point.y = self.piece.anchor_point.y - 1;
        }
        proof {
            lemma_inside_anchor(self.piece);
        }
    }

    /// Drops the piece as far as it goes and locks it there; the queue is
    /// left as it is.
    pub fn drop_and_lock(&mut self)
        requires
            old(self).wf(),
            old(self).score.has_room(),
        ensures
            final(self).wf(),
            final(self)@ == old(self)@.dropped(),
            final(self).width == old(self).width,
            final(self).height == old(self).height,
    {
        self.land();
        self.lock_piece();
    }

    /// Drops the piece as far as it goes, locks it there, and queues a new
    /// random piece.
    pub fn hard_drop(&mut self)
        requires
            old(self).wf(),
            old(self).score.has_room(),
        ensures
            final(self).wf(),
            final(self)@ == (GameView { next_piece: final(self).next_piece, ..old(self)@.dropped() }),
            final(self).next_piece == Piece::spawned(final(self).next_piece.block_type),
            final(self).width == old(self).width,
            final(self).height == old(self).height,
    {
        self.drop_and_lock();
        self.next_piece = Piece::random();
        proof {
            lemma_spawn_inside(self.next_piece);
        }
    }

    /// Whether a locked cell stands at or above the visible height.
    pub fn is_lost(&self) -> (r: bool)
        requires
            self.width == W,
            self.height == VISIBLE_H,
        ensures
            r == self@.is_lost(),
    {
        let mut y: i32 = self.height;
        while y < H as i32
            invariant
                VISIBLE_H <= y <= H,
                self.width == W,
                self.height == VISIBLE_H,
                forall|xx: int, yy: int|
                    0 <= xx < W && VISIBLE_H <= yy < y ==> (#[trigger] cell_at(self@.rows, xx, yy)).is_none(),
            decreases H - y,
        {
            let mut x: i32 = 0;
            while x < self.width
                invariant
                    0 <= x <= W,
                    VISIBLE_H <= y < H,
                    self.width == W,
                    self.height == VISIBLE_H,
                    forall|xx: int, yy: int|
                        0 <= xx < W && VISIBLE_H <= yy < y ==> (#[trigger] cell_at(self@.rows, xx, yy)).is_none(),
                    forall|xx: int| 0 <= xx < x ==> (#[trigger] cell_at(self@.rows, xx, y as int)).is_none(),
                decreases W - x,
            {
                if self.board.get(Coord::new(x, y)).is_some() {
                    assert(cell_at(self@.rows, x as int, y as int).is_some());
                    return true;
                }
                x += 1;
            }
            y += 1;
        }
        false
    }

    /// A fresh game: an empty board, two random pieces, a zero score.
    pub fn new() -> (r: Game)
        ensures
            r.wf(),
            r.board.is_empty(),
            r.score.is_zero(),
            r.piece == Piece::spawned(r.piece.block_type),
            r.next_piece == Piece::spawned(r.next_piece.block_type),
    {
        let piece = Piece::random();
        let next_piece = Piece::random();
        proof {
            lemma_spawn_inside(piece);
            lemma_spawn_inside(next_piece);
        }
        Game {
            board: Board::new(),
            piece,
            next_piece,
            width: W as i32,
            height: VISIBLE_H,
            score: Score::default(),
        }
    }
}


impl Game {
    /// Turns the piece a quarter turn and tries the wall-kick candidates of
    /// its type in order; the first that collides with nothing and stays on
    /// the grid is taken. When none does, the piece stays as it was.
    pub fn rotate(&mut self, rotation: Rotation)
        requires
            old(self).wf(),
        ensures
            final(self).wf(),
            final(self)@ == old(self)@.rotated(rotation),
            final(self).width == old(self).width,
            final(self).height == old(self).height,
    {
        let ghost orig = *self;
        let unturned = self.piece;
        let old_rot_idx = self.piece.rotation_idx;
        proof {
            lemma_inside_anchor(self.piece);
        }
        self.piece.rotate(rotation);
        let ghost rp = self.piece;
        proof {
            let want = turned_piece(unturned, rotation);
            assert(self.piece.block_positions =~= want.block_positions);
            assert(self.piece == want);
        }
        let new_rot_idx = self.piece.rotation_idx;
        let table = get_offset_table(self.piece.block_type);
        proof {
            lemma_kick_table_small(self.piece.block_type);
        }
        let mut k: usize = 0;
        let mut accepted: Option<Piece> = None;
        while k < table.len() && accepted.is_none()
            invariant
                orig.wf(),
                match accepted {
                    Some(p) => first_kick(orig@.rows, rp, old_rot_idx as int, 0) == Some(p)
                        && p.wf() && inside(p),
                    None => first_kick(orig@.rows, rp, old_rot_idx as int, 0) == first_kick(
                        orig@.rows,
                        rp,
                        old_rot_idx as int,
                        k as int,
                    ),
                },
                rp == turned_piece(orig.piece, rotation),
                rp.wf(),
                self.piece == rp,
                self.board == orig.board,
                self.next_piece == orig.next_piece,
                self.score == orig.score,
                self.width == orig.width,
                self.height == orig.height,
                unturned == orig.piece,
                old_rot_idx == orig.piece.rotation_idx,
                new_rot_idx == rp.rotation_idx,
                old_rot_idx < 4,
                new_rot_idx < 4,
                -2 <= rp.anchor_point.x <= W + 2,
                -2 <= rp.anchor_point.y <= H + 2,
                table@.len() == kick_table(rp.block_type).len(),
                forall|i: int| 0 <= i < table@.len() ==> (#[trigger] table@[i])@ == kick_table(rp.block_type)[i],
                forall|i: int, j: int|
                    0 <= i < kick_table(rp.block_type).len() && 0 <= j < 4 ==> kick_table(
                        rp.block_type,
                    )[i].len() == 4 && small(#[trigger] kick_table(rp.block_type)[i][j]),
            decreases table.len() - k,
        {
            let e = table[k];
            assert(e@ == kick_table(rp.block_type)[k as int]);
            assert(small(e@[new_rot_idx as int]) && small(e@[old_rot_idx as int]));
            let offset = e[new_rot_idx].sub(e[old_rot_idx]);
            let mut kicked = self.piece;
            kicked.anchor_point = kicked.anchor_point.sub(offset);
            assert(kicked == rp.shifted(
                e@[old_rot_idx as int].x - e@[new_rot_idx as int].x,
                e@[old_rot_idx as int].y - e@[new_rot_idx as int].y,
            ));
            if self.get_collision_after_move(Direction::Stay, &kicked) == Collision::Free
                && self.is_inside(&kicked) {
                accepted = Some(kicked);
            }
            k += 1;
        }
        match accepted {
            Some(p) => {
                self.piece = p;
            },
            None => {
                self.piece = unturned;
            },
        }
    }
}


/// A piece is free exactly when each of its cells is on the grid's columns,
/// not below the bottom row, and not on a locked cell.
pub proof fn lemma_free_iff(rows: Seq<Row>, p: Piece, i: int)
    requires
        0 <= i <= 4,
    ensures
        (collision_from(rows, p, 0, 0, i) == Collision::Free) <==> (forall|j: int|
            i <= j < 4 ==> 0 <= #[trigger] p.cell_x(j) < W && 0 <= p.cell_y(j) && cell_at(
                rows,
                p.cell_x(j),
                p.cell_y(j),
            ).is_none()),
    decreases 4 - i,
{
    if i < 4 {
        lemma_free_iff(rows, p, i + 1);
    }
}

/// Four quarter turns in one direction give back the piece: its offsets and
/// its rotation index are those it started with.
pub proof fn lemma_rotation_round_trip(p: Piece, r: Rotation)
    requires
        p.wf(),
    ensures
        turned_piece(turned_piece(turned_piece(turned_piece(p, r), r), r), r) == p,
{
    lemma_wf_small(p);
    let q = turned_piece(turned_piece(turned_piece(turned_piece(p, r), r), r), r);
    assert(q.block_positions =~= p.block_positions);
}

/// Pieces covering the same cells meet the same fate on the same board.
proof fn lemma_same_cells_same_fit(rows: Seq<Row>, p: Piece, q: Piece)
    requires
        forall|x: int, y: int| covers(p, x, y) == covers(q, x, y),
    ensures
        (collision(rows, p, 0, 0) == Collision::Free) == (collision(rows, q, 0, 0)
            == Collision::Free),
        inside(p) == inside(q),
{
    lemma_free_iff(rows, p, 0);
    lemma_free_iff(rows, q, 0);
    assert forall|j: int| 0 <= j < 4 implies covers(q, #[trigger] p.cell_x(j), p.cell_y(j)) by {
        assert(covers(p, p.cell_x(j), p.cell_y(j)));
    }
    assert forall|j: int| 0 <= j < 4 implies covers(p, #[trigger] q.cell_x(j), q.cell_y(j)) by {
        assert(covers(q, q.cell_x(j), q.cell_y(j)));
    }
}

/// A rotation of the square piece, blocked or not, leaves the set of cells
/// it covers unchanged once the wall kick has moved it.
pub proof fn lemma_o_rotation_keeps_cells(g: GameView, r: Rotation)
    requires
        g.piece.wf(),
        inside(g.piece),
        g.piece.block_type == PieceType::O,
    ensures
        forall|x: int, y: int| #[trigger] covers(g.rotated(r).piece, x, y) == covers(g.piece, x, y),
{
    let p = g.piece;
    lemma_inside_anchor(p);
    let rp = turned_piece(p, r);
    let e = kick_table(PieceType::O)[0];
    let cand = rp.shifted(
        e[p.rotation_idx as int].x - e[rp.rotation_idx as int].x,
        e[p.rotation_idx as int].y - e[rp.rotation_idx as int].y,
    );
    assert(p.block_positions@[0] == crate::piece::turned(crate::piece::spec_blocks(PieceType::O)[0], p.rotation_idx as int));
    assert(p.block_positions@[1] == crate::piece::turned(crate::piece::spec_blocks(PieceType::O)[1], p.rotation_idx as int));
    assert(p.block_positions@[2] == crate::piece::turned(crate::piece::spec_blocks(PieceType::O)[2], p.rotation_idx as int));
    assert(p.block_positions@[3] == crate::piece::turned(crate::piece::spec_blocks(PieceType::O)[3], p.rotation_idx as int));
    assert forall|x: int, y: int| covers(cand, x, y) == covers(p, x, y) by {}
    lemma_same_cells_same_fit(g.rows, cand, p);
    reveal_with_fuel(first_kick, 2);
}

/// A move to the left is refused, and changes nothing, when a cell of the
/// piece is already in column 0.
pub proof fn lemma_left_refused_at_wall(g: GameView, i: int)
    requires
        0 <= i < 4,
        g.piece.cell_x(i) == 0,
    ensures
        g.moved(-1, 0) == g,
{
    if g.free_after(-1, 0) {
        lemma_free_bounds(g.rows, g.piece, -1, 0, 0);
        assert(0 <= g.piece.cell_x(i) - 1);
    }
}

/// On an empty board a freshly spawned piece can take a step left, right and
/// down without any collision, and either rotation succeeds at once.
#[verifier::rlimit(100)]
pub proof fn lemma_spawn_moves_free(g: GameView, r: Rotation)
    requires
        forall|x: int, y: int| (#[trigger] cell_at(g.rows, x, y)).is_none(),
        g.piece.wf(),
        g.piece.anchor_point == crate::piece::c(4, 21),
        g.piece.rotation_idx == 0,
    ensures
        collision(g.rows, g.piece, -1, 0) == Collision::Free,
        collision(g.rows, g.piece, 1, 0) == Collision::Free,
        collision(g.rows, g.piece, 0, -1) == Collision::Free,
        g.rotated(r).piece.rotation_idx == crate::piece::next_idx(0, r),
{
    let p = g.piece;
    lemma_spawn_inside(p);
    lemma_wf_small(p);
    reveal_with_fuel(collision_from, 5);
    assert(p.block_positions@[0] == crate::piece::turned(crate::piece::spec_blocks(p.block_type)[0], 0));
    assert(p.block_positions@[1] == crate::piece::turned(crate::piece::spec_blocks(p.block_type)[1], 0));
    assert(p.block_positions@[2] == crate::piece::turned(crate::piece::spec_blocks(p.block_type)[2], 0));
    assert(p.block_positions@[3] == crate::piece::turned(crate::piece::spec_blocks(p.block_type)[3], 0));
    let rp = turned_piece(p, r);
    let e = kick_table(p.block_type)[0];
    let cand = rp.shifted(e[0].x - e[rp.rotation_idx as int].x, e[0].y - e[rp.rotation_idx as int].y);
    lemma_free_iff(g.rows, cand, 0);
    assert(inside(cand));
    assert(collision(g.rows, cand, 0, 0) == Collision::Free);
}


/// Landing moves only the piece.
pub proof fn lemma_landed_frame(v: GameView)
    ensures
        v.landed().rows == v.rows,
        v.landed().score == v.score,
        v.landed().next_piece == v.next_piece,
        v.landed().piece.block_type == v.piece.block_type,
    decreases v.piece.anchor_point.y + 3,
{
    if v.free_after(0, -1) && v.piece.anchor_point.y > -3 {
        lemma_landed_frame(v.with_piece(v.piece.shifted(0, -1)));
    }
}


/// General form: the shifted piece is free exactly when each shifted cell is
/// on the grid's columns, not below the bottom row, and not on a locked cell.
pub proof fn lemma_free_iff_shift(rows: Seq<Row>, p: Piece, dx: int, dy: int, i: int)
    requires
        0 <= i <= 4,
    ensures
        (collision_from(rows, p, dx, dy, i) == Collision::Free) <==> (forall|j: int|
            i <= j < 4 ==> 0 <= #[trigger] p.cell_x(j) + dx < W && 0 <= p.cell_y(j) + dy
                && cell_at(rows, p.cell_x(j) + dx, p.cell_y(j) + dy).is_none()),
    decreases 4 - i,
{
    if i < 4 {
        lemma_free_iff_shift(rows, p, dx, dy, i + 1);
    }
}



/// The point that the first row of the kick table keeps fixed while the
/// piece turns in open space: the anchor plus that row's entry for the
/// current rotation index.
pub open spec fn kick_centre(p: Piece) -> (int, int) {
    let e = kick_table(p.block_type)[0][p.rotation_idx as int];
    (p.anchor_point.x + e.x, p.anchor_point.y + e.y)
}

/// The centre lies well inside the grid, so that every turn of the piece
/// about it stays on the grid.
pub open spec fn centred(p: Piece) -> bool {
    3 <= kick_centre(p).0 <= 6 && 3 <= kick_centre(p).1 <= 19
}

/// A quarter turn of an offset turned `n` times is the offset turned to the
/// next index.
proof fn lemma_turn_compose(c: Coord, n: int, r: Rotation)
    requires
        small(c),
        0 <= n < 4,
    ensures
        turn(crate::piece::turned(c, n), r) == crate::piece::turned(c, crate::piece::next_idx(n, r)),
{
}

/// A quarter turn keeps a well-formed piece well formed.
#[verifier::rlimit(50)]
proof fn lemma_turned_wf(p: Piece, r: Rotation)
    requires
        p.wf(),
    ensures
        turned_piece(p, r).wf(),
        turned_piece(p, r).block_type == p.block_type,
        turned_piece(p, r).anchor_point == p.anchor_point,
{
    lemma_wf_small(p);
    let q = turned_piece(p, r);
    assert forall|i: int| 0 <= i < 4 implies #[trigger] q.block_positions@[i] == crate::piece::turned(
        crate::piece::spec_blocks(q.block_type)[i],
        q.rotation_idx as int,
    ) by {
        let b = crate::piece::spec_blocks(p.block_type)[i];
        assert(p.block_positions@[i] == crate::piece::turned(b, p.rotation_idx as int));
        assert(small(b));
        lemma_turn_compose(b, p.rotation_idx as int, r);
        assert(q.block_positions@[i] == turn(p.block_positions@[i], r));
    }
}

/// The first row of every kick table holds small offsets.
proof fn lemma_kick_row0_bounds(t: PieceType)
    ensures
        forall|j: int|
            0 <= j < 4 ==> -1 <= #[trigger] kick_table(t)[0][j].x <= 0 && -1 <= kick_table(t)[0][j].y
                <= 1,
{
}

/// The first kick candidate of a quarter turn.
pub open spec fn first_candidate(p: Piece, r: Rotation) -> Piece {
    let rp = turned_piece(p, r);
    let e = kick_table(rp.block_type)[0];
    rp.shifted(
        e[p.rotation_idx as int].x - e[rp.rotation_idx as int].x,
        e[p.rotation_idx as int].y - e[rp.rotation_idx as int].y,
    )
}

proof fn lemma_first_candidate(p: Piece, r: Rotation)
    requires
        p.wf(),
        centred(p),
    ensures
        first_candidate(p, r).wf(),
        inside(first_candidate(p, r)),
        kick_centre(first_candidate(p, r)) == kick_centre(p),
        first_candidate(p, r).block_positions == turned_piece(p, r).block_positions,
{
    lemma_turned_wf(p, r);
    let rp = turned_piece(p, r);
    lemma_wf_small(rp);
    lemma_kick_row0_bounds(p.block_type);
    let e = kick_table(rp.block_type)[0];
    let cand = first_candidate(p, r);
    assert(-1 <= e[p.rotation_idx as int].x <= 0 && -1 <= e[p.rotation_idx as int].y <= 1);
    assert(-1 <= e[rp.rotation_idx as int].x <= 0 && -1 <= e[rp.rotation_idx as int].y <= 1);
    assert forall|i: int| 0 <= i < 4 implies 0 <= #[trigger] cand.cell_x(i) < W && 0 <= cand.cell_y(i) < H by {
        assert(small(rp.block_positions@[i]));
    }
}

/// On an empty board a centred piece turns with the first kick candidate,
/// which keeps the centre.
proof fn lemma_free_turn(g: GameView, r: Rotation)
    requires
        forall|x: int, y: int| (#[trigger] cell_at(g.rows, x, y)).is_none(),
        g.piece.wf(),
        centred(g.piece),
    ensures
        g.rotated(r) == g.with_piece(first_candidate(g.piece, r)),
        g.rotated(r).piece.wf(),
        centred(g.rotated(r).piece),
        kick_centre(g.rotated(r).piece) == kick_centre(g.piece),
        g.rotated(r).piece.block_type == g.piece.block_type,
        g.rotated(r).piece.rotation_idx == crate::piece::next_idx(g.piece.rotation_idx as int, r),
        forall|i: int| 0 <= i < 4 ==> #[trigger] g.rotated(r).piece.block_positions@[i] == turn(
            g.piece.block_positions@[i],
            r,
        ),
{
    let cand = first_candidate(g.piece, r);
    lemma_first_candidate(g.piece, r);
    lemma_free_iff(g.rows, cand, 0);
    assert(collision(g.rows, cand, 0, 0) == Collision::Free);
    assert(first_kick(g.rows, turned_piece(g.piece, r), g.piece.rotation_idx as int, 0) == Some(cand));
}

/// On an empty board, a centred piece turned four times in the same
/// direction is back where it was: its offsets, its rotation index and its
/// anchor (the kicks of the first table row cancel out).
#[verifier::rlimit(50)]
pub proof fn lemma_free_rotation_round_trip(g: GameView, r: Rotation)
    requires
        forall|x: int, y: int| (#[trigger] cell_at(g.rows, x, y)).is_none(),
        g.piece.wf(),
        centred(g.piece),
    ensures
        g.rotated(r).rotated(r).rotated(r).rotated(r) == g,
{
    let g1 = g.rotated(r);
    lemma_free_turn(g, r);
    let g2 = g1.rotated(r);
    lemma_free_turn(g1, r);
    let g3 = g2.rotated(r);
    lemma_free_turn(g2, r);
    let g4 = g3.rotated(r);
    lemma_free_turn(g3, r);
    lemma_wf_small(g.piece);
    let p = g.piece;
    let q = g4.piece;
    assert forall|i: int| 0 <= i < 4 implies q.block_positions@[i] == p.block_positions@[i] by {
        assert(small(p.block_positions@[i]));
        assert(q.block_positions@[i] == turn(turn(turn(turn(p.block_positions@[i], r), r), r), r));
    }
    assert(q.block_positions =~= p.block_positions);
    assert(q.rotation_idx == p.rotation_idx);
    assert(kick_centre(q) == kick_centre(p));
    assert(q.anchor_point.x == p.anchor_point.x && q.anchor_point.y == p.anchor_point.y);
    assert(q == p);
    assert(g4.rows == g.rows && g4.next_piece == g.next_piece && g4.score == g.score);
}


/// On an empty board the piece lands with a cell in the bottom row.
proof fn lemma_lands_on_floor(v: GameView)
    requires
        forall|x: int, y: int| (#[trigger] cell_at(v.rows, x, y)).is_none(),
        v.piece.wf(),
        inside(v.piece),
    ensures
        v.landed().piece.wf(),
        v.landed().piece.block_type == v.piece.block_type,
        exists|i: int| 0 <= i < 4 && #[trigger] v.landed().piece.cell_y(i) == 0,
    decreases v.piece.anchor_point.y + 3,
{
    lemma_inside_anchor(v.piece);
    if v.free_after(0, -1) && v.piece.anchor_point.y > -3 {
        lemma_shift_inside(v.rows, v.piece, 0, -1);
        lemma_lands_on_floor(v.with_piece(v.piece.shifted(0, -1)));
    } else {
        lemma_free_iff_shift(v.rows, v.piece, 0, -1, 0);
        let j = choose|j: int| 0 <= j < 4 && !(0 <= #[trigger] v.piece.cell_x(j) + 0 < W && 0 <= v.piece.cell_y(j)
            + -1 && cell_at(v.rows, v.piece.cell_x(j) + 0, v.piece.cell_y(j) + -1).is_none());
        assert(v.piece.cell_y(j) == 0);
    }
}

/// On an empty board, a hard drop of a well-formed piece on the grid does
/// not lose the game: the piece comes to rest in the bottom rows.
pub proof fn lemma_empty_board_drop_not_lost(v: GameView)
    requires
        forall|x: int, y: int| (#[trigger] cell_at(v.rows, x, y)).is_none(),
        v.rows.len() == H,
        forall|y: int| 0 <= y < H ==> (#[trigger] v.rows[y]).len() == W,
        v.piece.wf(),
        inside(v.piece),
    ensures
        !v.is_lost(),
        !v.dropped().is_lost(),
{
    lemma_lands_on_floor(v);
    lemma_landed_frame(v);
    let l = v.landed();
    let p = l.piece;
    lemma_wf_small(p);
    let j = choose|j: int| 0 <= j < 4 && #[trigger] p.cell_y(j) == 0;
    assert(p.cell_y(j) == p.anchor_point.y + p.block_positions@[j].y);
    assert(small(p.block_positions@[j]));
    let st = stamp(l.rows, p);
    let del = l.cleared();
    let kept = kept_rows(st, del, H as int);
    lemma_kept_origin(st, del, H as int);
    lemma_kept_len(st, del, H as int);
    let res = l.locked().rows;
    assert(res == without_rows(st, del));
    assert forall|x: int, y: int| 0 <= x < W && VISIBLE_H <= y < H implies (#[trigger] cell_at(res, x, y)).is_none() by {
        if y < kept.len() {
            let i = choose|i: int| y <= i < H && !del.contains(i) && #[trigger] kept[y] == st[i];
            assert(small(p.block_positions@[0]) && small(p.block_positions@[1]));
            assert(small(p.block_positions@[2]) && small(p.block_positions@[3]));
            assert(!covers(p, x, i));
            assert(cell_at(l.rows, x, i).is_none());
            assert(res[y] == st[i]);
        } else {
            assert(res[y] == empty_row());
        }
    }
    assert forall|x: int, y: int| 0 <= x < W && VISIBLE_H <= y < H implies (#[trigger] cell_at(v.rows, x, y)).is_none() by {}
}

} // verus!
