use vstd::prelude::*;
use crate::board::{Board, H, W};
use crate::entities::Rotation;
use crate::game::{inside, lemma_inside_anchor, Game, GameView};

verus! {

/// The moves the search branches on, in the order in which they are tried.
#[derive(Clone, Copy, PartialEq, Eq, Structural, Hash, Debug)]
pub enum Action {
    HardDrop,
    SoftDrop,
    Left,
    Right,
    RotateCcw,
    RotateCw,
}

/// The game after one move; a lock leaves the queued piece as it is.
pub open spec fn step(v: GameView, a: Action) -> GameView {
    match a {
        Action::HardDrop => v.dropped(),
        Action::SoftDrop => v.fell(),
        Action::Left => v.moved(-1, 0),
        Action::Right => v.moved(1, 0),
        Action::RotateCcw => v.rotated(Rotation::Counterclockwise),
        Action::RotateCw => v.rotated(Rotation::Clockwise),
    }
}

/// The game after a sequence of moves.
pub open spec fn run(v: GameView, acts: Seq<Action>) -> GameView
    decreases acts.len(),
{
    if acts.len() == 0 {
        v
    } else {
        step(run(v, acts.drop_last()), acts.last())
    }
}

/// `w` is reachable from `v` by some sequence of moves.
pub open spec fn reachable(v: GameView, w: GameView) -> bool {
    exists|acts: Seq<Action>| run(v, acts) == w
}

/// Applies one move; a lock leaves the queued piece as it is.
pub fn apply(game: &mut Game, action: Action)
    requires
        old(game).wf(),
        old(game).score.has_room(),
    ensures
        final(game).wf(),
        final(game)@ == step(old(game)@, action),
{
    match action {
        Action::HardDrop => game.drop_and_lock(),
        Action::SoftDrop => game.fall(),
        Action::Left => game.go_left(),
        Action::Right => game.go_right(),
        Action::RotateCcw => game.rotate(Rotation::Counterclockwise),
        Action::RotateCw => game.rotate(Rotation::Clockwise),
    }
}

/// Whether two boards hold the same cells.
pub fn same_board(a: &Board, b: &Board) -> (r: bool)
    ensures
        r == (*a == *b),
{
    let mut i: usize = 0;
    while i < 240
        invariant
            i <= 240,
            forall|j: int| 0 <= j < i ==> a.cells@[j] == b.cells@[j],
        decreases 240 - i,
    {
        if a.cells[i] != b.cells[i] {
            return false;
        }
        i += 1;
    }
    assert(a.cells =~= b.cells);
    true
}

/// The anchor columns `-2..13` and rows `-2..27` hold every anchor of a
/// piece on the grid; with four rotation indices they number 1740.
pub const POSITIONS: usize = 1740;

pub open spec fn position_index(p: crate::piece::Piece) -> int {
    ((p.anchor_point.x + 2) * 29 + (p.anchor_point.y + 2)) * 4 + p.rotation_idx
}

/// The slot of a piece position in the visited table.
pub(crate) fn position_slot(game: &Game) -> (r: usize)
    requires
        game.wf(),
    ensures
        r == position_index(game.piece),
        r < POSITIONS,
{
    proof {
        lemma_inside_anchor(game.piece);
    }
    let p = game.piece;
    (((p.anchor_point.x + 2) * 29 + (p.anchor_point.y + 2)) * 4) as usize + p.rotation_idx
}

pub open spec fn count_true(s: Seq<bool>) -> nat
    decreases s.len(),
{
    if s.len() == 0 {
        0
    } else {
        count_true(s.drop_last()) + if s.last() { 1nat } else { 0nat }
    }
}

pub(crate) proof fn lemma_count_true_bound(s: Seq<bool>)
    ensures
        count_true(s) <= s.len(),
    decreases s.len(),
{
    if s.len() > 0 {
        lemma_count_true_bound(s.drop_last());
    }
}

pub(crate) proof fn lemma_count_true_set(s: Seq<bool>, i: int)
    requires
        0 <= i < s.len(),
        !s[i],
    ensures
        count_true(s.update(i, true)) == count_true(s) + 1,
    decreases s.len(),
{
    let t = s.update(i, true);
    if i == s.len() - 1 {
        assert(t.drop_last() =~= s.drop_last());
    } else {
        lemma_count_true_set(s.drop_last(), i);
        assert(t.drop_last() =~= s.drop_last().update(i, true));
    }
}

} // verus!
