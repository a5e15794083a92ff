use vstd::prelude::*;
use std::sync::Arc;
use crate::board::{Board, Row, H, W};
use crate::game::{
    cell_at, inside, lemma_free_iff_shift, lemma_inside_anchor, lemma_landed_frame, Game, GameView,
};
use crate::heuristics::{highest_block, highest_upto, row_occupied, Heuristic};
use crate::piece::lemma_wf_small;
use crate::search::{
    apply, count_true, lemma_count_true_bound, lemma_count_true_set, position_index, position_slot,
    reachable, run, same_board, step, Action, POSITIONS,
};

verus! {

/// Rows from the value of `highest_block` up hold no locked cell.
proof fn lemma_above_highest_empty(b: Board, n: int, y: int, x: int)
    requires
        0 <= n <= H,
        highest_upto(b, n) <= y < n,
    ensures
        b.at(x, y).is_none(),
    decreases n,
{
    if n > 0 {
        if row_occupied(b, n - 1) {
        } else if y == n - 1 {
            if 0 <= x < W {
                assert(!(b.at(x, y).is_some()));
            }
        } else {
            lemma_above_highest_empty(b, n - 1, y, x);
        }
    }
}

proof fn lemma_highest_bound(b: Board, n: int)
    requires
        0 <= n,
    ensures
        highest_upto(b, n) <= n,
    decreases n,
{
    if n > 0 {
        lemma_highest_bound(b, n - 1);
    }
}

/// A move keeps the score, or locks the piece and counts one more drop.
proof fn lemma_step_score(v: GameView, a: Action)
    ensures
        step(v, a).score == v.score || step(v, a).score.dropped_pieces == (v.score.dropped_pieces
            + 1) as usize,
{
    lemma_landed_frame(v);
}

/// The row of the piece's lowest cell.
pub open spec fn lowest_y(p: crate::piece::Piece) -> int {
    let a = if p.cell_y(0) < p.cell_y(1) { p.cell_y(0) } else { p.cell_y(1) };
    let b = if p.cell_y(2) < p.cell_y(3) { p.cell_y(2) } else { p.cell_y(3) };
    if a < b { a } else { b }
}

/// How many rows the piece is moved down before the search.
pub open spec fn lower_dist(g: Game) -> int {
    let d = lowest_y(g.piece) - highest_upto(g.board, H as int);
    if d > 0 { d } else { 0 }
}

/// The game with the piece moved down by `lower_dist`.
pub open spec fn lowered(g: Game) -> GameView {
    g@.with_piece(g.piece.shifted(0, -lower_dist(g)))
}

/// Moves the piece straight down until its lowest cell is one row above the
/// highest occupied row (or on the floor of an empty board). Nothing is in
/// the way there, so no lock happens and the landing place is unchanged.
pub fn lower_piece_before_branching(game: &mut Game)
    requires
        old(game).wf(),
        old(game).score.has_room(),
    ensures
        final(game).wf(),
        final(game)@ == lowered(*old(game)),
        reachable(old(game)@, final(game)@),
        final(game).board == old(game).board,
        final(game).score == old(game).score,
        final(game).next_piece == old(game).next_piece,
        final(game)@.landed() == old(game)@.landed(),
        final(game).width == old(game).width,
        final(game).height == old(game).height,
{
    let ghost orig = *game;
    proof {
        lemma_wf_small(game.piece);
    }
    let blocks = game.piece.iter_blocks();
    let mut lowest = blocks[0].y;
    if blocks[1].y < lowest {
        lowest = blocks[1].y;
    }
    if blocks[2].y < lowest {
        lowest = blocks[2].y;
    }
    if blocks[3].y < lowest {
        lowest = blocks[3].y;
    }
    assert(blocks@[0].x == game.piece.cell_x(0) && blocks@[1].x == game.piece.cell_x(1));
    assert(blocks@[2].x == game.piece.cell_x(2) && blocks@[3].x == game.piece.cell_x(3));
    let highest = highest_block(&game.board);
    proof {
        lemma_highest_bound(game.board, H as int);
    }
    let highest = highest as i32;
    assert(0 <= lowest < H);
    let dist = lowest - highest;
    let mut k: i32 = 0;
    let ghost mut acts: Seq<Action> = Seq::empty();
    while k < dist
        invariant
            game.wf(),
            game.score.has_room(),
            orig.wf(),
            game.board == orig.board,
            game.score == orig.score,
            game.next_piece == orig.next_piece,
            game.width == orig.width,
            game.height == orig.height,
            game@.landed() == orig@.landed(),
            run(orig@, acts) == game@,
            0 <= highest <= H,
            highest == highest_upto(game.board, H as int),
            0 <= k,
            dist == lowest - highest,
            lowest == lowest_y(orig.piece),
            k <= dist || k == 0,
            game.piece == orig.piece.shifted(0, -k),
            forall|i: int| 0 <= i < 4 ==> #[trigger] game.piece.cell_y(i) - (dist - k) >= highest,
        decreases dist - k,
    {
        proof {
            lemma_wf_small(game.piece);
            lemma_inside_anchor(game.piece);
            lemma_free_iff_shift(game@.rows, game.piece, 0, -1, 0);
            assert forall|j: int| 0 <= j < 4 implies 0 <= #[trigger] game.piece.cell_x(j) + 0 < W
                && 0 <= game.piece.cell_y(j) + -1 && cell_at(
                game@.rows,
                game.piece.cell_x(j) + 0,
                game.piece.cell_y(j) + -1,
            ).is_none() by {
                let y = game.piece.cell_y(j) - 1;
                if y < H {
                    lemma_above_highest_empty(game.board, H as int, y, game.piece.cell_x(j));
                }
            }
            assert(game@.free_after(0, -1));
        }
        game.fall();
        proof {
            let before = acts;
            acts = acts.push(Action::SoftDrop);
            assert(acts.drop_last() =~= before);
        }
        k += 1;
    }
}


/// A player: a game, one weight per heuristic, and the shared list of
/// heuristics. The weight type is left to the caller.
pub struct Agent<Wt> {
    pub game: Game,
    pub weights: Vec<Wt>,
    pub heuristics: Arc<Vec<Heuristic>>,
}

/// The weights and the heuristics are not of the same number.
#[derive(Clone, Copy, PartialEq, Eq, Structural, Hash, Debug)]
pub struct WeightCountMismatch {
    pub passed: usize,
    pub expected: usize,
}

/// `acts` never locks the piece of `v`: every game along the way, the last
/// included, has the score of `v`.
pub open spec fn unlocked_path(v: GameView, acts: Seq<Action>) -> bool
    decreases acts.len(),
{
    if acts.len() == 0 {
        true
    } else {
        unlocked_path(v, acts.drop_last()) && run(v, acts).score == v.score
    }
}

/// `w` is reached from `v` by moves that keep the piece of `v` falling.
pub open spec fn falling_from(v: GameView, w: GameView) -> bool {
    exists|acts: Seq<Action>| #[trigger] unlocked_path(v, acts) && run(v, acts) == w
}

/// `w` is the game right after the piece of `v` locks, on some sequence of
/// moves.
pub open spec fn first_lock_from(v: GameView, w: GameView) -> bool {
    exists|acts: Seq<Action>, a: Action|
        #[trigger] unlocked_path(v, acts) && #[trigger] step(run(v, acts), a) == w && w.score != v.score
}

/// The boards of the games right after the piece of `v` locks, on any
/// sequence of moves, that are not lost.
pub open spec fn outcome_rows(v: GameView) -> Set<Seq<Row>> {
    Set::new(|rows: Seq<Row>| exists|w: GameView| #[trigger] first_lock_from(v, w) && !w.is_lost() && w.rows == rows)
}

pub open spec fn action_at(k: int) -> Action {
    if k == 0 {
        Action::HardDrop
    } else if k == 1 {
        Action::SoftDrop
    } else if k == 2 {
        Action::Left
    } else if k == 3 {
        Action::Right
    } else if k == 4 {
        Action::RotateCcw
    } else {
        Action::RotateCw
    }
}

proof fn lemma_every_action(a: Action)
    ensures
        exists|k: int| 0 <= k < 6 && #[trigger] action_at(k) == a,
{
    match a {
        Action::HardDrop => assert(action_at(0) == a),
        Action::SoftDrop => assert(action_at(1) == a),
        Action::Left => assert(action_at(2) == a),
        Action::Right => assert(action_at(3) == a),
        Action::RotateCcw => assert(action_at(4) == a),
        Action::RotateCw => assert(action_at(5) == a),
    }
}

/// One more move from a falling game: still falling, or the first lock.
proof fn lemma_falling_step(v: GameView, u: GameView, a: Action)
    requires
        falling_from(v, u),
    ensures
        step(u, a).score == v.score ==> falling_from(v, step(u, a)),
        step(u, a).score != v.score ==> first_lock_from(v, step(u, a)),
{
    let acts = choose|acts: Seq<Action>| #[trigger] unlocked_path(v, acts) && run(v, acts) == u;
    let more = acts.push(a);
    assert(more.drop_last() =~= acts);
    assert(run(v, more) == step(u, a));
    if step(u, a).score == v.score {
        assert(unlocked_path(v, more));
    } else {
        assert(unlocked_path(v, acts) && step(run(v, acts), a) == step(u, a));
    }
}

/// The first kick candidate is the turned piece moved.
proof fn lemma_first_kick_type(rows: Seq<Row>, rp: crate::piece::Piece, from: int, k: int)
    ensures
        crate::game::first_kick(rows, rp, from, k) matches Some(p) ==> p.block_type == rp.block_type,
    decreases crate::srs::kick_table(rp.block_type).len() - k,
{
    if 0 <= k < crate::srs::kick_table(rp.block_type).len() {
        lemma_first_kick_type(rows, rp, from, k + 1);
    }
}

/// A move that keeps the score keeps the board, the queue and the piece type.
proof fn lemma_step_frame(u: GameView, a: Action)
    requires
        u.score.has_room(),
        step(u, a).score == u.score,
    ensures
        step(u, a).rows == u.rows,
        step(u, a).next_piece == u.next_piece,
        step(u, a).piece.block_type == u.piece.block_type,
{
    lemma_landed_frame(u);
    lemma_first_kick_type(
        u.rows,
        crate::game::turned_piece(u.piece, crate::entities::Rotation::Clockwise),
        u.piece.rotation_idx as int,
        0,
    );
    lemma_first_kick_type(
        u.rows,
        crate::game::turned_piece(u.piece, crate::entities::Rotation::Counterclockwise),
        u.piece.rotation_idx as int,
        0,
    );
}

/// A falling game shares the board, queue, score and piece type of the start.
pub open spec fn same_frame(v: GameView, g: Game) -> bool {
    &&& g@.rows == v.rows
    &&& g.next_piece == v.next_piece
    &&& g.score == v.score
    &&& g.piece.block_type == v.piece.block_type
}

/// Two well-formed falling games in the same position are the same game.
proof fn lemma_position_determines(v: GameView, g1: Game, g2: Game)
    requires
        g1.wf(),
        g2.wf(),
        same_frame(v, g1),
        same_frame(v, g2),
        position_index(g1.piece) == position_index(g2.piece),
    ensures
        g1@ == g2@,
{
    lemma_inside_anchor(g1.piece);
    lemma_inside_anchor(g2.piece);
    assert(g1.piece.anchor_point == g2.piece.anchor_point);
    assert(g1.piece.rotation_idx == g2.piece.rotation_idx);
    assert forall|i: int| 0 <= i < 4 implies g1.piece.block_positions@[i] == g2.piece.block_positions@[i] by {
        assert(g1.piece.block_positions@[i] == crate::piece::turned(
            crate::piece::spec_blocks(g1.piece.block_type)[i],
            g1.piece.rotation_idx as int,
        ));
        assert(g2.piece.block_positions@[i] == crate::piece::turned(
            crate::piece::spec_blocks(g2.piece.block_type)[i],
            g2.piece.rotation_idx as int,
        ));
    }
    assert(g1.piece.block_positions =~= g2.piece.block_positions);
}

/// Pushes the six games one move away from `g`, in the order of the moves.
fn push_moves(stack: &mut Vec<Game>, g: &Game)
    requires
        g.wf(),
        g.score.has_room(),
    ensures
        final(stack)@.len() == old(stack)@.len() + 6,
        forall|i: int| 0 <= i < old(stack)@.len() ==> final(stack)@[i] == old(stack)@[i],
        forall|k: int|
            0 <= k < 6 ==> (#[trigger] final(stack)@[old(stack)@.len() + k]).wf()
                && final(stack)@[old(stack)@.len() + k]@ == step(g@, action_at(k)),
{
    let ghost before = stack@;
    let mut a: usize = 0;
    while a < 6
        invariant
            a <= 6,
            g.wf(),
            g.score.has_room(),
            stack@.len() == before.len() + a,
            forall|i: int| 0 <= i < before.len() ==> stack@[i] == before[i],
            forall|k: int|
                0 <= k < a ==> (#[trigger] stack@[before.len() + k]).wf() && stack@[before.len()
                    + k]@ == step(g@, action_at(k)),
        decreases 6 - a,
    {
        let action = match a {
            0 => Action::HardDrop,
            1 => Action::SoftDrop,
            2 => Action::Left,
            3 => Action::Right,
            4 => Action::RotateCcw,
            _ => Action::RotateCw,
        };
        let mut branched = *g;
        apply(&mut branched, action);
        stack.push(branched);
        a += 1;
    }
}

/// Adds `g` unless a game with the same board is already there.
fn insert_distinct(states: &mut Vec<Game>, g: Game)
    requires
        forall|i: int, j: int| 0 <= i < j < old(states)@.len() ==> old(states)@[i].board != old(states)@[j].board,
    ensures
        forall|i: int, j: int| 0 <= i < j < final(states)@.len() ==> final(states)@[i].board != final(states)@[j].board,
        final(states)@ == old(states)@ || final(states)@ == old(states)@.push(g),
        exists|j: int| 0 <= j < final(states)@.len() && #[trigger] final(states)@[j].board == g.board,
{
    let mut found = false;
    let mut j: usize = 0;
    while j < states.len()
        invariant
            j <= states@.len(),
            found == exists|k: int| 0 <= k < j && #[trigger] states@[k].board == g.board,
        decreases states@.len() - j,
    {
        if same_board(&states[j].board, &g.board) {
            found = true;
        }
        j += 1;
    }
    if !found {
        states.push(g);
        assert(states@[states@.len() - 1].board == g.board);
    }
}

/// Every game on the stack is well formed and either still falling from
/// the start or just after the first lock.
#[verifier::opaque]
pub open spec fn stack_ok(start: Game, stack: Seq<Game>) -> bool {
    forall|i: int|
        0 <= i < stack.len() ==> (#[trigger] stack[i]).wf() && ((same_frame(start@, stack[i]) && falling_from(
            start@,
            stack[i]@,
        )) || (first_lock_from(start@, stack[i]@) && stack[i].score.dropped_pieces
            == start.score.dropped_pieces + 1))
}

/// The outcomes found so far, with pairwise distinct boards.
#[verifier::opaque]
pub open spec fn results_ok(start: Game, rs: Seq<Game>) -> bool {
    &&& forall|j: int|
        0 <= j < rs.len() ==> (#[trigger] rs[j]).wf() && first_lock_from(start@, rs[j]@) && !rs[j]@.is_lost()
    &&& forall|i: int, j: int| 0 <= i < j < rs.len() ==> rs[i].board != rs[j].board
}

/// The board of `w` is among the outcomes found.
pub open spec fn board_found(rs: Seq<Game>, w: GameView) -> bool {
    exists|j: int| 0 <= j < rs.len() && #[trigger] rs[j]@.rows == w.rows
}

/// What became of one move from an expanded game: it waits on the stack,
/// it is an expanded game itself, or it is a lock that is lost or whose
/// board was found.
pub open spec fn move_handled(start: Game, ex: Seq<Game>, stack: Seq<Game>, rs: Seq<Game>, w: GameView) -> bool {
    ||| exists|i: int| 0 <= i < stack.len() && #[trigger] stack[i]@ == w
    ||| (w.score == start.score && exists|e: int| 0 <= e < ex.len() && #[trigger] ex[e]@ == w)
    ||| (w.score != start.score && (w.is_lost() || board_found(rs, w)))
}

/// The expanded games are falling and marked as visited.
#[verifier::opaque]
pub open spec fn expanded_ok(start: Game, ex: Seq<Game>, visited: Seq<bool>) -> bool {
    forall|e: int|
        0 <= e < ex.len() ==> (#[trigger] ex[e]).wf() && same_frame(start@, ex[e]) && falling_from(start@, ex[e]@)
            && 0 <= position_index(ex[e].piece) < visited.len() && visited[position_index(ex[e].piece)]
}

/// Every visited position is held by an expanded game.
#[verifier::opaque]
pub open spec fn slots_held(ex: Seq<Game>, visited: Seq<bool>) -> bool {
    forall|s: int| 0 <= s < visited.len() && #[trigger] visited[s] ==> exists|e: int|
        0 <= e < ex.len() && position_index(#[trigger] ex[e].piece) == s
}

/// Every move from an expanded game is handled.
#[verifier::opaque]
pub open spec fn moves_handled(start: Game, ex: Seq<Game>, stack: Seq<Game>, rs: Seq<Game>) -> bool {
    forall|e: int, k: int|
        0 <= e < ex.len() && 0 <= k < 6 ==> move_handled(start, ex, stack, rs, #[trigger] step(ex[e]@, action_at(k)))
}

pub open spec fn closed(start: Game, ex: Seq<Game>, visited: Seq<bool>, stack: Seq<Game>, rs: Seq<Game>) -> bool {
    &&& expanded_ok(start, ex, visited)
    &&& slots_held(ex, visited)
    &&& moves_handled(start, ex, stack, rs)
}

/// The state of the search between two steps.
pub open spec fn search_inv(
    start: Game,
    stack: Seq<Game>,
    rs: Seq<Game>,
    visited: Seq<bool>,
    budget: usize,
    started: bool,
    ex: Seq<Game>,
) -> bool {
    &&& start.wf()
    &&& start.score.has_room()
    &&& visited.len() == POSITIONS
    &&& budget == POSITIONS - count_true(visited)
    &&& stack_ok(start, stack)
    &&& results_ok(start, rs)
    &&& (!started ==> stack == seq![start] && rs.len() == 0 && count_true(visited) == 0 && ex.len() == 0)
    &&& (!start@.is_lost() ==> closed(start, ex, visited, stack, rs))
    &&& (started && !start@.is_lost() ==> exists|e: int| 0 <= e < ex.len() && #[trigger] ex[e]@ == start@)
}

proof fn lemma_stack_pop(start: Game, s: Seq<Game>)
    requires
        stack_ok(start, s),
        s.len() > 0,
    ensures
        stack_ok(start, s.drop_last()),
        s.last().wf(),
        (same_frame(start@, s.last()) && falling_from(start@, s.last()@)) || (first_lock_from(start@, s.last()@)
            && s.last().score.dropped_pieces == start.score.dropped_pieces + 1),
{
    reveal(stack_ok);
    assert(s[s.len() - 1] == s.last());
}

proof fn lemma_stack_push(start: Game, s: Seq<Game>, s2: Seq<Game>, g: Game)
    requires
        start.score.has_room(),
        stack_ok(start, s),
        g.wf(),
        same_frame(start@, g),
        falling_from(start@, g@),
        s2.len() == s.len() + 6,
        forall|i: int| 0 <= i < s.len() ==> s2[i] == s[i],
        forall|k: int|
            0 <= k < 6 ==> (#[trigger] s2[s.len() + k]).wf() && s2[s.len() + k]@ == step(g@, action_at(k)),
    ensures
        stack_ok(start, s2),
{
    reveal(stack_ok);
    assert forall|i: int| 0 <= i < s2.len() implies (#[trigger] s2[i]).wf() && ((same_frame(start@, s2[i])
        && falling_from(start@, s2[i]@)) || (first_lock_from(start@, s2[i]@) && s2[i].score.dropped_pieces
        == start.score.dropped_pieces + 1)) by {
        if i >= s.len() {
            let k = i - s.len();
            assert(s2[s.len() + k] == s2[i]);
            assert(s2[s.len() + k].wf());
            lemma_falling_step(start@, g@, action_at(k));
            lemma_step_score(g@, action_at(k));
            if step(g@, action_at(k)).score == start.score {
                lemma_step_frame(g@, action_at(k));
            }
        } else {
            assert(s2[i] == s[i]);
        }
    }
}

proof fn lemma_results_insert(start: Game, rs: Seq<Game>, rs2: Seq<Game>, g: Game)
    requires
        results_ok(start, rs),
        g.wf(),
        first_lock_from(start@, g@),
        !g@.is_lost(),
        rs2 == rs || rs2 == rs.push(g),
        forall|i: int, j: int| 0 <= i < j < rs2.len() ==> rs2[i].board != rs2[j].board,
    ensures
        results_ok(start, rs2),
{
    reveal(results_ok);
    if rs2 != rs {
        assert forall|j: int| 0 <= j < rs2.len() implies (#[trigger] rs2[j]).wf() && first_lock_from(
            start@,
            rs2[j]@,
        ) && !rs2[j]@.is_lost() by {
            if j < rs.len() {
                assert(rs2[j] == rs[j]);
            }
        }
    }
}

proof fn lemma_results_distinct(start: Game, rs: Seq<Game>)
    requires
        results_ok(start, rs),
    ensures
        forall|i: int, j: int| 0 <= i < j < rs.len() ==> rs[i].board != rs[j].board,
{
    reveal(results_ok);
}

/// Taking the top game off the stack keeps the moves handled, once the top
/// game itself is handled by other means.
proof fn lemma_closed_pop(start: Game, ex: Seq<Game>, visited: Seq<bool>, s: Seq<Game>, rs: Seq<Game>, rs2: Seq<Game>)
    requires
        closed(start, ex, visited, s, rs),
        s.len() > 0,
        rs.len() <= rs2.len(),
        forall|j: int| 0 <= j < rs.len() ==> rs2[j] == rs[j],
        move_handled(start, ex, s.drop_last(), rs2, s.last()@),
    ensures
        closed(start, ex, visited, s.drop_last(), rs2),
{
    reveal(moves_handled);
    let s1 = s.drop_last();
    assert forall|e: int, k: int| 0 <= e < ex.len() && 0 <= k < 6 implies move_handled(
        start,
        ex,
        s1,
        rs2,
        #[trigger] step(ex[e]@, action_at(k)),
    ) by {
        let w = step(ex[e]@, action_at(k));
        assert(move_handled(start, ex, s, rs, w));
        if exists|i: int| 0 <= i < s.len() && #[trigger] s[i]@ == w {
            let i = choose|i: int| 0 <= i < s.len() && #[trigger] s[i]@ == w;
            if i < s.len() - 1 {
                assert(s1[i] == s[i]);
            } else {
                assert(s[i] == s.last());
            }
        } else if w.score != start.score && !w.is_lost() && board_found(rs, w) {
            let j = choose|j: int| 0 <= j < rs.len() && #[trigger] rs[j]@.rows == w.rows;
            assert(rs2[j] == rs[j]);
        }
    }
}

/// Expanding the top game of the stack: it joins the expanded games and its
/// six moves replace it on the stack.
proof fn lemma_closed_expand(
    start: Game,
    ex: Seq<Game>,
    visited: Seq<bool>,
    s: Seq<Game>,
    s2: Seq<Game>,
    rs: Seq<Game>,
    g: Game,
)
    requires
        closed(start, ex, visited, s, rs),
        s.len() > 0,
        g == s.last(),
        g.wf(),
        same_frame(start@, g),
        falling_from(start@, g@),
        0 <= position_index(g.piece) < visited.len(),
        s2.len() == s.len() - 1 + 6,
        forall|i: int| 0 <= i < s.len() - 1 ==> s2[i] == s[i],
        forall|k: int| 0 <= k < 6 ==> #[trigger] s2[s.len() - 1 + k]@ == step(g@, action_at(k)),
    ensures
        closed(start, ex.push(g), visited.update(position_index(g.piece), true), s2, rs),
{
    lemma_expand_ok(start, ex, visited, g);
    lemma_expand_slots(ex, visited, g);
    lemma_expand_moves(start, ex, s, s2, rs, g);
}

proof fn lemma_expand_ok(start: Game, ex: Seq<Game>, visited: Seq<bool>, g: Game)
    requires
        expanded_ok(start, ex, visited),
        g.wf(),
        same_frame(start@, g),
        falling_from(start@, g@),
        0 <= position_index(g.piece) < visited.len(),
    ensures
        expanded_ok(start, ex.push(g), visited.update(position_index(g.piece), true)),
{
    reveal(expanded_ok);
    let ex2 = ex.push(g);
    let v2 = visited.update(position_index(g.piece), true);
    assert forall|e: int| 0 <= e < ex2.len() implies (#[trigger] ex2[e]).wf() && same_frame(start@, ex2[e])
        && falling_from(start@, ex2[e]@) && 0 <= position_index(ex2[e].piece) < v2.len()
        && v2[position_index(ex2[e].piece)] by {
        if e < ex.len() {
            assert(ex2[e] == ex[e]);
        }
    }
}

proof fn lemma_expand_slots(ex: Seq<Game>, visited: Seq<bool>, g: Game)
    requires
        slots_held(ex, visited),
        0 <= position_index(g.piece) < visited.len(),
    ensures
        slots_held(ex.push(g), visited.update(position_index(g.piece), true)),
{
    reveal(slots_held);
    let ex2 = ex.push(g);
    let v2 = visited.update(position_index(g.piece), true);
    assert(ex2[ex.len() as int] == g);
    assert forall|q: int| 0 <= q < v2.len() && #[trigger] v2[q] implies exists|e: int|
        0 <= e < ex2.len() && position_index(#[trigger] ex2[e].piece) == q by {
        if q == position_index(g.piece) {
            assert(position_index(ex2[ex.len() as int].piece) == q);
        } else {
            assert(visited[q]);
            let e = choose|e: int| 0 <= e < ex.len() && position_index(#[trigger] ex[e].piece) == q;
            assert(ex2[e] == ex[e]);
        }
    }
}

proof fn lemma_expand_moves(start: Game, ex: Seq<Game>, s: Seq<Game>, s2: Seq<Game>, rs: Seq<Game>, g: Game)
    requires
        moves_handled(start, ex, s, rs),
        s.len() > 0,
        g == s.last(),
        same_frame(start@, g),
        s2.len() == s.len() - 1 + 6,
        forall|i: int| 0 <= i < s.len() - 1 ==> s2[i] == s[i],
        forall|k: int| 0 <= k < 6 ==> #[trigger] s2[s.len() - 1 + k]@ == step(g@, action_at(k)),
    ensures
        moves_handled(start, ex.push(g), s2, rs),
{
    reveal(moves_handled);
    let ex2 = ex.push(g);
    assert(ex2[ex.len() as int] == g);
    assert forall|e: int, k: int| 0 <= e < ex2.len() && 0 <= k < 6 implies move_handled(
        start,
        ex2,
        s2,
        rs,
        #[trigger] step(ex2[e]@, action_at(k)),
    ) by {
        let w = step(ex2[e]@, action_at(k));
        if e == ex.len() {
            assert(s2[s.len() - 1 + k]@ == w);
        } else {
            assert(ex2[e] == ex[e]);
            assert(move_handled(start, ex, s, rs, w));
            if exists|i: int| 0 <= i < s.len() && #[trigger] s[i]@ == w {
                let i = choose|i: int| 0 <= i < s.len() && #[trigger] s[i]@ == w;
                if i < s.len() - 1 {
                    assert(s2[i] == s[i]);
                } else {
                    assert(s[i] == s.last());
                    assert(ex2[ex.len() as int]@ == w);
                }
            } else if w.score == start.score && exists|e2: int| 0 <= e2 < ex.len() && #[trigger] ex[e2]@ == w {
                let e2 = choose|e2: int| 0 <= e2 < ex.len() && #[trigger] ex[e2]@ == w;
                assert(ex2[e2] == ex[e2]);
            }
        }
    }
}

/// With nothing left on the stack, every game that some never-locking
/// sequence of moves reaches is expanded, and every board right after a
/// first lock that is not lost is among the outcomes.
proof fn lemma_complete(start: Game, ex: Seq<Game>, visited: Seq<bool>, rs: Seq<Game>)
    requires
        closed(start, ex, visited, Seq::empty(), rs),
        exists|e: int| 0 <= e < ex.len() && #[trigger] ex[e]@ == start@,
    ensures
        forall|rows: Seq<Row>| #[trigger] outcome_rows(start@).contains(rows) ==> exists|j: int|
            0 <= j < rs.len() && #[trigger] rs[j]@.rows == rows,
{
    assert forall|rows: Seq<Row>| #[trigger] outcome_rows(start@).contains(rows) implies exists|j: int|
        0 <= j < rs.len() && #[trigger] rs[j]@.rows == rows by {
        let w = choose|w: GameView| #[trigger] first_lock_from(start@, w) && !w.is_lost() && w.rows == rows;
        let (acts, a) = choose|acts: Seq<Action>, a: Action|
            #[trigger] unlocked_path(start@, acts) && #[trigger] step(run(start@, acts), a) == w && w.score
                != start@.score;
        lemma_path_expanded(start, ex, visited, rs, acts);
        let e = choose|e: int| 0 <= e < ex.len() && #[trigger] ex[e]@ == run(start@, acts);
        lemma_every_action(a);
        let k = choose|k: int| 0 <= k < 6 && #[trigger] action_at(k) == a;
        reveal(moves_handled);
        assert(move_handled(start, ex, Seq::empty(), rs, step(ex[e]@, action_at(k))));
    }
}

proof fn lemma_path_expanded(start: Game, ex: Seq<Game>, visited: Seq<bool>, rs: Seq<Game>, acts: Seq<Action>)
    requires
        closed(start, ex, visited, Seq::empty(), rs),
        exists|e: int| 0 <= e < ex.len() && #[trigger] ex[e]@ == start@,
        unlocked_path(start@, acts),
    ensures
        exists|e: int| 0 <= e < ex.len() && #[trigger] ex[e]@ == run(start@, acts),
    decreases acts.len(),
{
    if acts.len() > 0 {
        let prev = acts.drop_last();
        lemma_path_expanded(start, ex, visited, rs, prev);
        let e = choose|e: int| 0 <= e < ex.len() && #[trigger] ex[e]@ == run(start@, prev);
        lemma_every_action(acts.last());
        let k = choose|k: int| 0 <= k < 6 && #[trigger] action_at(k) == acts.last();
        reveal(moves_handled);
        assert(move_handled(start, ex, Seq::empty(), rs, step(ex[e]@, action_at(k))));
        assert(run(start@, acts) == step(run(start@, prev), acts.last()));
    }
}

/// Takes one game off the stack and handles it: a lost game is dropped, a
/// game whose piece has locked is kept as an outcome unless its board is
/// already there, and a game in a position not yet expanded is expanded.
#[verifier::rlimit(100)]
fn search_step(
    start: &Game,
    stack: &mut Vec<Game>,
    next_states: &mut Vec<Game>,
    visited: &mut Vec<bool>,
    budget: &mut usize,
    started: &mut bool,
    ex: Ghost<Seq<Game>>,
) -> (ex2: Ghost<Seq<Game>>)
    requires
        search_inv(*start, old(stack)@, old(next_states)@, old(visited)@, *old(budget), *old(started), ex@),
        old(stack)@.len() > 0,
    ensures
        search_inv(*start, final(stack)@, final(next_states)@, final(visited)@, *final(budget), *final(started), ex2@),
        *final(budget) < *old(budget) || (*final(budget) == *old(budget) && final(stack)@.len() < old(stack)@.len()),
{
    let n_dropped = start.score.dropped_pieces;
    let ghost before = stack@;
    let ghost rs_before = next_states@;
    proof {
        lemma_stack_pop(*start, stack@);
    }
    let popped = match stack.pop() {
        Some(g) => g,
        None => *start,
    };
    assert(popped == before.last());
    let first = !*started;
    *started = true;
    let ghost mut ex_now = ex@;
    if popped.is_lost() {
        proof {
            if first {
                assert(popped == *start);
            }
            if !start@.is_lost() {
                if same_frame(start@, popped) && falling_from(start@, popped@) {
                    assert(popped@.rows == start@.rows);
                    assert(false);
                }
                lemma_closed_pop(*start, ex@, visited@, before, rs_before, next_states@);
            }
        }
    } else if popped.score.dropped_pieces == n_dropped + 1 {
        proof {
            lemma_results_distinct(*start, next_states@);
        }
        insert_distinct(next_states, popped);
        proof {
            lemma_results_insert(*start, rs_before, next_states@, popped);
            if first {
                assert(popped == *start);
            }
            if !start@.is_lost() {
                let j = choose|j: int| 0 <= j < next_states@.len() && #[trigger] next_states@[j].board == popped.board;
                assert(next_states@[j]@.rows == popped@.rows);
                assert(board_found(next_states@, popped@));
                lemma_closed_pop(*start, ex@, visited@, before, rs_before, next_states@);
            }
        }
    } else {
        let slot = position_slot(&popped);
        if !visited[slot] {
            proof {
                lemma_count_true_set(visited@, slot as int);
                lemma_count_true_bound(visited@.update(slot as int, true));
            }
            let ghost mid = stack@;
            push_moves(stack, &popped);
            proof {
                lemma_stack_push(*start, mid, stack@, popped);
                if !start@.is_lost() {
                    lemma_closed_expand(*start, ex@, visited@, before, stack@, next_states@, popped);
                    ex_now = ex@.push(popped);
                    if first {
                        assert(popped == *start);
                        assert(ex_now[ex@.len() as int]@ == start@);
                    } else {
                        let e = choose|e: int| 0 <= e < ex@.len() && #[trigger] ex@[e]@ == start@;
                        assert(ex_now[e] == ex@[e]);
                    }
                }
            }
            visited.set(slot, true);
            *budget = *budget - 1;
        } else {
            proof {
                if first {
                    lemma_count_true_zero(visited@, slot as int);
                }
                if !start@.is_lost() {
                    reveal(slots_held);
                    reveal(expanded_ok);
                    let e = choose|e: int| 0 <= e < ex@.len() && position_index(#[trigger] ex@[e].piece) == slot as int;
                    lemma_position_determines(start@, ex@[e], popped);
                    assert(move_handled(*start, ex@, before.drop_last(), next_states@, popped@));
                    lemma_closed_pop(*start, ex@, visited@, before, rs_before, next_states@);
                }
            }
        }
    }
    Ghost(ex_now)
}

proof fn lemma_search_init(start: Game, visited: Seq<bool>)
    requires
        start.wf(),
        forall|j: int| 0 <= j < visited.len() ==> !visited[j],
    ensures
        stack_ok(start, seq![start]),
        results_ok(start, Seq::empty()),
        closed(start, Seq::empty(), visited, seq![start], Seq::empty()),
{
    reveal(stack_ok);
    reveal(results_ok);
    reveal(expanded_ok);
    reveal(slots_held);
    reveal(moves_handled);
    let empty: Seq<Action> = Seq::empty();
    assert(unlocked_path(start@, empty) && run(start@, empty) == start@);
    assert(seq![start][0] == start);
}

proof fn lemma_done_sound(game: Game, start: Game, rs: Seq<Game>)
    requires
        results_ok(start, rs),
        start@ == lowered(game),
        start.score == game.score,
        game.score.has_room(),
    ensures
        forall|i: int|
            0 <= i < rs.len() ==> (#[trigger] rs[i]).wf() && first_lock_from(lowered(game), rs[i]@)
                && !rs[i]@.is_lost() && rs[i].score.dropped_pieces == game.score.dropped_pieces + 1,
        forall|i: int| 0 <= i < rs.len() ==> outcome_rows(lowered(game)).contains(#[trigger] rs[i]@.rows),
        forall|i: int, j: int| 0 <= i < j < rs.len() ==> rs[i].board != rs[j].board,
{
    reveal(results_ok);
    assert forall|i: int| 0 <= i < rs.len() implies (#[trigger] rs[i]).wf() && first_lock_from(lowered(game), rs[i]@)
        && !rs[i]@.is_lost() && rs[i].score.dropped_pieces == game.score.dropped_pieces + 1 by {
        assert(first_lock_from(start@, rs[i]@));
        let (acts, a) = choose|acts: Seq<Action>, a: Action|
            #[trigger] unlocked_path(start@, acts) && #[trigger] step(run(start@, acts), a) == rs[i]@
                && rs[i]@.score != start@.score;
        lemma_unlocked_path_score(start@, acts);
        lemma_step_score(run(start@, acts), a);
    }
    assert forall|i: int| 0 <= i < rs.len() implies outcome_rows(lowered(game)).contains(#[trigger] rs[i]@.rows) by {
        assert(first_lock_from(start@, rs[i]@) && !rs[i]@.is_lost());
    }
}

proof fn lemma_done_complete(
    game: Game,
    start: Game,
    ex: Seq<Game>,
    visited: Seq<bool>,
    rs: Seq<Game>,
    budget: usize,
    started: bool,
)
    requires
        search_inv(start, Seq::empty(), rs, visited, budget, started, ex),
        start@ == lowered(game),
        start.board == game.board,
        start.score == game.score,
        !game@.is_lost(),
    ensures
        forall|rows: Seq<Row>|
            #[trigger] outcome_rows(lowered(game)).contains(rows) ==> exists|j: int|
                0 <= j < rs.len() && #[trigger] rs[j]@.rows == rows,
{
    assert(start@.rows == game@.rows);
    if !started {
        assert(seq![start].len() == 1);
    }
    lemma_complete(start, ex, visited, rs);
}

proof fn lemma_done_non_empty(game: Game, start: Game, rs: Seq<Game>)
    requires
        start@ == lowered(game),
        start.board == game.board,
        start.score == game.score,
        start.next_piece == game.next_piece,
        start@.landed() == game@.landed(),
        forall|rows: Seq<Row>|
            #[trigger] outcome_rows(lowered(game)).contains(rows) ==> exists|j: int|
                0 <= j < rs.len() && #[trigger] rs[j]@.rows == rows,
        game.score.has_room(),
        !game@.dropped().is_lost(),
    ensures
        rs.len() > 0,
{
    let hd = step(start@, Action::HardDrop);
    lemma_landed_frame(start@);
    lemma_landed_frame(game@);
    assert(hd == game@.dropped());
    let empty: Seq<Action> = Seq::empty();
    assert(unlocked_path(start@, empty) && step(run(start@, empty), Action::HardDrop) == hd);
    assert(hd.score != start@.score);
    assert(first_lock_from(start@, hd));
    assert(outcome_rows(start@).contains(hd.rows));
}

/// Along a never-locking path the score is that of the start.
proof fn lemma_unlocked_path_score(v: GameView, acts: Seq<Action>)
    requires
        unlocked_path(v, acts),
    ensures
        run(v, acts).score == v.score,
    decreases acts.len(),
{
}

impl<Wt> Agent<Wt> {
    /// The games right after the falling piece locks, one per distinct
    /// board, over every sequence of moves, except those that are lost. The
    /// piece is first lowered (see `lower_piece_before_branching`); then a
    /// depth-first search branches on every move and never expands the same
    /// piece position twice. A lock leaves the queued piece in place of the
    /// locked one and in the queue. The boards returned are exactly
    /// `outcome_rows(lowered(game))` (for a game not already lost), a
    /// function of `game` alone: repeated calls give the same set.
    #[verifier::rlimit(100)]
    pub fn get_all_possible_next_game_states(game: Game) -> (r: Vec<Game>)
        requires
            game.wf(),
            game.score.has_room(),
        ensures
            forall|i: int|
                0 <= i < r@.len() ==> (#[trigger] r@[i]).wf() && first_lock_from(lowered(game), r@[i]@)
                    && !r@[i]@.is_lost() && r@[i].score.dropped_pieces == game.score.dropped_pieces + 1,
            forall|i: int| 0 <= i < r@.len() ==> outcome_rows(lowered(game)).contains(#[trigger] r@[i]@.rows),
            forall|i: int, j: int| 0 <= i < j < r@.len() ==> r@[i].board != r@[j].board,
            !game@.is_lost() ==> forall|rows: Seq<Row>|
                #[trigger] outcome_rows(lowered(game)).contains(rows) ==> exists|j: int|
                    0 <= j < r@.len() && #[trigger] r@[j]@.rows == rows,
            !game@.is_lost() && !game@.dropped().is_lost() ==> r@.len() > 0,
    {
        let mut start = game;
        lower_piece_before_branching(&mut start);
        let mut stack: Vec<Game> = Vec::new();
        stack.push(start);
        let mut next_states: Vec<Game> = Vec::new();
        let mut visited: Vec<bool> = Vec::new();
        let mut v: usize = 0;
        while v < POSITIONS
            invariant
                v <= POSITIONS,
                visited@.len() == v,
                forall|j: int| 0 <= j < v ==> !visited@[j],
            decreases POSITIONS - v,
        {
            visited.push(false);
            v += 1;
        }
        proof {
            lemma_count_true_none(visited@);
            assert(stack@ =~= seq![start]);
            lemma_search_init(start, visited@);
        }
        let mut budget: usize = POSITIONS;
        let mut started = false;
        let ghost mut ex: Seq<Game> = Seq::empty();
        while stack.len() > 0
            invariant
                search_inv(start, stack@, next_states@, visited@, budget, started, ex),
                start@ == lowered(game),
                start.board == game.board,
                start.score == game.score,
                start.next_piece == game.next_piece,
                start@.landed() == game@.landed(),
                game.score.has_room(),
            decreases budget, stack@.len(),
        {
            let Ghost(ex2) = search_step(
                &start,
                &mut stack,
                &mut next_states,
                &mut visited,
                &mut budget,
                &mut started,
                Ghost(ex),
            );
            proof {
                ex = ex2;
            }
        }
        proof {
            assert(stack@ =~= Seq::<Game>::empty());
            lemma_done_sound(game, start, next_states@);
            if !game@.is_lost() {
                lemma_done_complete(game, start, ex, visited@, next_states@, budget, started);
                if !game@.dropped().is_lost() {
                    lemma_done_non_empty(game, start, next_states@);
                }
            }
        }
        next_states
    }
}

proof fn lemma_count_true_zero(s: Seq<bool>, i: int)
    requires
        count_true(s) == 0,
        0 <= i < s.len(),
    ensures
        !s[i],
    decreases s.len(),
{
    if i < s.len() - 1 {
        lemma_count_true_zero(s.drop_last(), i);
    }
}

proof fn lemma_count_true_none(s: Seq<bool>)
    requires
        forall|j: int| 0 <= j < s.len() ==> !s[j],
    ensures
        count_true(s) == 0,
    decreases s.len(),
{
    if s.len() > 0 {
        lemma_count_true_none(s.drop_last());
    }
}


/// The index of the first smallest key, if there is any key.
pub fn first_min_index(keys: &Vec<i64>) -> (r: Option<usize>)
    ensures
        r.is_none() == (keys@.len() == 0),
        r matches Some(i) ==> i < keys@.len() && (forall|j: int|
            0 <= j < keys@.len() ==> keys@[i as int] <= #[trigger] keys@[j]) && (forall|j: int|
            0 <= j < i ==> keys@[i as int] < #[trigger] keys@[j]),
{
    if keys.len() == 0 {
        return None;
    }
    let mut best: usize = 0;
    let mut i: usize = 1;
    while i < keys.len()
        invariant
            1 <= i <= keys@.len(),
            best < i,
            forall|j: int| 0 <= j < i ==> keys@[best as int] <= #[trigger] keys@[j],
            forall|j: int| 0 <= j < best ==> keys@[best as int] < #[trigger] keys@[j],
        decreases keys@.len() - i,
    {
        if keys[i] < keys[best] {
            best = i;
        }
        i += 1;
    }
    Some(best)
}

/// `(i, j)` comes before `(k, l)` in row-by-row order.
pub open spec fn before_pair(i: int, j: int, k: int, l: int) -> bool {
    i < k || (i == k && j < l)
}

/// `(i, j)` indexes a key, the smallest of all, and no earlier pair in
/// row-by-row order has that key.
pub open spec fn is_first_min_pair(keys: Seq<Vec<i64>>, i: int, j: int) -> bool {
    &&& 0 <= i < keys.len()
    &&& 0 <= j < keys[i]@.len()
    &&& forall|k: int, l: int|
        0 <= k < keys.len() && 0 <= l < keys[k]@.len() ==> keys[i]@[j] <= #[trigger] keys[k]@[l]
    &&& forall|k: int, l: int|
        0 <= k < keys.len() && 0 <= l < keys[k]@.len() && before_pair(k, l, i, j) ==> keys[i]@[j]
            < #[trigger] keys[k]@[l]
}

/// The first pair `(i, j)`, in row-by-row order, whose key is the smallest
/// of all; `None` when there is no key at all.
pub fn first_min_pair(keys: &Vec<Vec<i64>>) -> (r: Option<(usize, usize)>)
    ensures
        r.is_none() == (forall|i: int| 0 <= i < keys@.len() ==> (#[trigger] keys@[i])@.len() == 0),
        r matches Some((i, j)) ==> i < keys@.len() && j < keys@[i as int]@.len() && (forall|k: int, l: int|
            0 <= k < keys@.len() && 0 <= l < keys@[k]@.len() ==> keys@[i as int]@[j as int]
                <= #[trigger] keys@[k]@[l]) && (forall|k: int, l: int|
            0 <= k < keys@.len() && 0 <= l < keys@[k]@.len() && before_pair(k, l, i as int, j as int)
                ==> keys@[i as int]@[j as int] < #[trigger] keys@[k]@[l]),
{
    let mut best: Option<(usize, usize)> = None;
    let mut i: usize = 0;
    while i < keys.len()
        invariant
            i <= keys@.len(),
            best.is_none() == (forall|k: int| 0 <= k < i ==> (#[trigger] keys@[k])@.len() == 0),
            best matches Some((bi, bj)) ==> bi < i && bj < keys@[bi as int]@.len() && (forall|k: int, l: int|
                0 <= k < i && 0 <= l < keys@[k]@.len() ==> keys@[bi as int]@[bj as int]
                    <= #[trigger] keys@[k]@[l]) && (forall|k: int, l: int|
                0 <= k < i && 0 <= l < keys@[k]@.len() && before_pair(k, l, bi as int, bj as int)
                    ==> keys@[bi as int]@[bj as int] < #[trigger] keys@[k]@[l]),
        decreases keys@.len() - i,
    {
        let row = &keys[i];
        let mut j: usize = 0;
        while j < row.len()
            invariant
                i < keys@.len(),
                row@ == keys@[i as int]@,
                j <= row@.len(),
                best.is_none() ==> j == 0 && (forall|k: int| 0 <= k < i ==> (#[trigger] keys@[k])@.len() == 0),
                j == 0 && (forall|k: int| 0 <= k < i ==> (#[trigger] keys@[k])@.len() == 0) ==> best.is_none(),
                best matches Some((bi, bj)) ==> bi <= i && (bi < i || bj < j) && bj < keys@[bi as int]@.len()
                    && (forall|k: int, l: int|
                    0 <= k <= i && 0 <= l < keys@[k]@.len() && (k < i || l < j) ==> keys@[bi as int]@[bj as int]
                        <= #[trigger] keys@[k]@[l]) && (forall|k: int, l: int|
                    0 <= k <= i && 0 <= l < keys@[k]@.len() && (k < i || l < j) && before_pair(
                        k,
                        l,
                        bi as int,
                        bj as int,
                    ) ==> keys@[bi as int]@[bj as int] < #[trigger] keys@[k]@[l]),
            decreases row@.len() - j,
        {
            match best {
                None => {
                    best = Some((i, j));
                },
                Some((bi, bj)) => {
                    if row[j] < keys[bi][bj] {
                        best = Some((i, j));
                    }
                },
            }
            j += 1;
        }
        i += 1;
    }
    best
}

impl<Wt> Agent<Wt> {
    /// An agent with the given weights over the given heuristics and a fresh
    /// game; refused when the two are not of the same number.
    pub fn from_weights(weights: Vec<Wt>, heuristics: &Vec<Heuristic>) -> (r: Result<
        Agent<Wt>,
        WeightCountMismatch,
    >)
        ensures
            r.is_ok() == (weights@.len() == heuristics@.len()),
            r matches Ok(a) ==> a.weights@ == weights@ && (*a.heuristics)@ == heuristics@ && a.game.wf()
                && a.game.board.is_empty() && a.game.score.is_zero(),
            r matches Err(e) ==> e.passed == weights@.len() && e.expected == heuristics@.len(),
    {
        if weights.len() != heuristics.len() {
            return Err(WeightCountMismatch { passed: weights.len(), expected: heuristics.len() });
        }
        let mut copy: Vec<Heuristic> = Vec::new();
        let mut i: usize = 0;
        while i < heuristics.len()
            invariant
                i <= heuristics@.len(),
                copy@ == heuristics@.subrange(0, i as int),
            decreases heuristics@.len() - i,
        {
            copy.push(heuristics[i]);
            i += 1;
        }
        assert(copy@ =~= heuristics@);
        Ok(Agent { game: Game::new(), weights, heuristics: Arc::new(copy) })
    }

    /// The agent's fitness: the score of its game.
    pub fn fitness(&self) -> (r: usize)
        ensures
            r == self.game.score.score,
    {
        self.game.score.score
    }

    /// The value of each of the agent's heuristics on `board`, in order: the
    /// terms that the weights multiply.
    pub fn heuristic_values(&self, board: &Board) -> (r: Vec<u64>)
        ensures
            r@.len() == (*self.heuristics)@.len(),
            forall|i: int|
                0 <= i < r@.len() ==> crate::heuristics::is_value_of(
                    (*self.heuristics)@[i],
                    *board,
                    #[trigger] r@[i] as int,
                ),
    {
        let hs: &Vec<Heuristic> = &self.heuristics;
        let mut r: Vec<u64> = Vec::new();
        let mut i: usize = 0;
        while i < hs.len()
            invariant
                i <= hs@.len(),
                hs@ == (*self.heuristics)@,
                r@.len() == i,
                forall|k: int|
                    0 <= k < i ==> crate::heuristics::is_value_of(hs@[k], *board, #[trigger] r@[k] as int),
            decreases hs@.len() - i,
        {
            let v = hs[i].evaluate(board);
            r.push(v);
            i += 1;
        }
        r
    }

    /// The candidate with the first smallest key (keys given in the order of
    /// the candidates); `None` when there is no candidate.
    pub fn pick_best(candidates: Vec<Game>, keys: &Vec<i64>) -> (r: Option<Game>)
        requires
            keys@.len() == candidates@.len(),
        ensures
            r.is_none() == (candidates@.len() == 0),
            r matches Some(g) ==> exists|i: int|
                0 <= i < candidates@.len() && candidates@[i] == g && (forall|j: int|
                    0 <= j < keys@.len() ==> keys@[i] <= #[trigger] keys@[j]) && (forall|j: int|
                    0 <= j < i ==> keys@[i] < #[trigger] keys@[j]),
    {
        match first_min_index(keys) {
            Some(i) => Some(candidates[i]),
            None => None,
        }
    }

    /// Two-ply choice: `keys[i]` holds the keys of the games that follow
    /// first-ply candidate `i`. The first-ply candidate of the first pair, in
    /// row-by-row order, with the smallest key of all; `None` when there is
    /// no pair.
    pub fn pick_best_path(first_ply: Vec<Game>, keys: &Vec<Vec<i64>>) -> (r: Option<Game>)
        requires
            keys@.len() == first_ply@.len(),
        ensures
            r.is_none() == (forall|i: int| 0 <= i < keys@.len() ==> (#[trigger] keys@[i])@.len() == 0),
            r matches Some(g) ==> exists|i: int, j: int|
                #[trigger] is_first_min_pair(keys@, i, j) && first_ply@[i] == g,
    {
        match first_min_pair(keys) {
            Some((i, j)) => {
                assert(is_first_min_pair(keys@, i as int, j as int));
                Some(first_ply[i])
            },
            None => None,
        }
    }
}


/// The boards of a result of `get_all_possible_next_game_states`.
pub open spec fn has_board(r: Seq<Game>, rows: Seq<Row>) -> bool {
    exists|i: int| 0 <= i < r.len() && #[trigger] r[i]@.rows == rows
}

/// Two searches from the same game, not already lost, find the same set of
/// boards: each set is `outcome_rows(lowered(game))`, as the search states.
pub proof fn lemma_search_repeatable(game: Game, r1: Seq<Game>, r2: Seq<Game>)
    requires
        forall|i: int| 0 <= i < r1.len() ==> outcome_rows(lowered(game)).contains(#[trigger] r1[i]@.rows),
        forall|rows: Seq<Row>|
            #[trigger] outcome_rows(lowered(game)).contains(rows) ==> exists|j: int|
                0 <= j < r1.len() && #[trigger] r1[j]@.rows == rows,
        forall|i: int| 0 <= i < r2.len() ==> outcome_rows(lowered(game)).contains(#[trigger] r2[i]@.rows),
        forall|rows: Seq<Row>|
            #[trigger] outcome_rows(lowered(game)).contains(rows) ==> exists|j: int|
                0 <= j < r2.len() && #[trigger] r2[j]@.rows == rows,
    ensures
        forall|rows: Seq<Row>| #[trigger] has_board(r1, rows) == has_board(r2, rows),
{
    assert forall|rows: Seq<Row>| #[trigger] has_board(r1, rows) == has_board(r2, rows) by {
        if has_board(r1, rows) {
            let i = choose|i: int| 0 <= i < r1.len() && #[trigger] r1[i]@.rows == rows;
            assert(outcome_rows(lowered(game)).contains(r1[i]@.rows));
        }
        if has_board(r2, rows) {
            let i = choose|i: int| 0 <= i < r2.len() && #[trigger] r2[i]@.rows == rows;
            assert(outcome_rows(lowered(game)).contains(r2[i]@.rows));
        }
    }
}


/// A game on an empty board is not lost and neither is its hard drop, so
/// the search from it (whose result is non-empty in that case) finds at
/// least one outcome.
pub proof fn lemma_empty_board_search_non_empty(game: Game)
    requires
        game.wf(),
        game.board.is_empty(),
    ensures
        !game@.is_lost(),
        !game@.dropped().is_lost(),
{
    assert forall|x: int, y: int| (#[trigger] cell_at(game@.rows, x, y)).is_none() by {
        if 0 <= x < W && 0 <= y < H {
            assert(game@.rows[y][x] == game.board.at(x, y));
        }
    }
    crate::game::lemma_empty_board_drop_not_lost(game@);
}


/// Whether a play-out goes on after `turns_done` moves: the turn limit, if
/// any, is not reached, the last move found a next state, and the game is
/// not lost.
pub fn keep_playing(turns_done: usize, max_turns: Option<usize>, moved: bool, lost: bool) -> (r: bool)
    ensures
        r == ((max_turns matches Some(m) ==> turns_done < m) && moved && !lost),
{
    let below_limit = match max_turns {
        Some(m) => turns_done < m,
        None => true,
    };
    below_limit && moved && !lost
}

} // verus!
