use vstd::prelude::*;
use itertools::Itertools;
use crate::board::{Board, H, W};
use crate::entities::PieceType;
use crate::game::{Game, GameView, VISIBLE_H};
use crate::piece::{c, Piece};
use crate::scoring::Score;

verus! {

/// The value of a board heuristic; every heuristic here counts cells or rows.
pub type HeuristicScore = u64;

/// The highest occupied row of column `x` among rows `0..n`, or 0.
pub open spec fn col_top(b: Board, x: int, n: int) -> int
    decreases n,
{
    if n <= 0 {
        0
    } else if b.at(x, n - 1).is_some() {
        n - 1
    } else {
        col_top(b, x, n - 1)
    }
}

/// The height of column `x`: the index of its highest occupied row, 0 for an
/// empty column.
pub open spec fn col_height(b: Board, x: int) -> int {
    col_top(b, x, H as int)
}

pub open spec fn heights(b: Board) -> Seq<int> {
    Seq::new(W as nat, |x: int| col_height(b, x))
}

/// Empty cells of column `x` in rows `0..n`.
pub open spec fn empty_below(b: Board, x: int, n: int) -> nat
    decreases n,
{
    if n <= 0 {
        0
    } else {
        empty_below(b, x, n - 1) + if b.at(x, n - 1).is_none() { 1nat } else { 0nat }
    }
}

/// Holes of columns `0..k`: empty cells under each column's highest block.
pub open spec fn holes_upto(b: Board, k: int) -> nat
    decreases k,
{
    if k <= 0 {
        0
    } else {
        holes_upto(b, k - 1) + empty_below(b, k - 1, col_height(b, k - 1))
    }
}

pub open spec fn row_occupied(b: Board, y: int) -> bool {
    exists|x: int| 0 <= x < W && (#[trigger] b.at(x, y)).is_some()
}

/// One more than the highest occupied row among rows `0..n`, or 0.
pub open spec fn highest_upto(b: Board, n: int) -> nat
    decreases n,
{
    if n <= 0 {
        0
    } else if row_occupied(b, n - 1) {
        n as nat
    } else {
        highest_upto(b, n - 1)
    }
}

pub open spec fn abs_diff(a: int, b: int) -> nat {
    if a >= b {
        (a - b) as nat
    } else {
        (b - a) as nat
    }
}

/// Sum of the differences between neighbouring heights among `hs[0..k]`.
pub open spec fn bump_upto(hs: Seq<int>, k: int) -> nat
    decreases k,
{
    if k <= 1 {
        0
    } else {
        bump_upto(hs, k - 1) + abs_diff(hs[k - 2], hs[k - 1])
    }
}

pub open spec fn max_upto(hs: Seq<int>, k: int) -> int
    decreases k,
{
    if k <= 1 {
        hs[0]
    } else {
        let m = max_upto(hs, k - 1);
        if hs[k - 1] > m {
            hs[k - 1]
        } else {
            m
        }
    }
}

pub open spec fn min_upto(hs: Seq<int>, k: int) -> int
    decreases k,
{
    if k <= 1 {
        hs[0]
    } else {
        let m = min_upto(hs, k - 1);
        if hs[k - 1] < m {
            hs[k - 1]
        } else {
            m
        }
    }
}

/// The probe of `clear_potential`: an upright I piece at column `x`, at the
/// spawn row, over the board.
pub open spec fn probe(b: Board, x: int) -> GameView {
    GameView {
        rows: b.rows(),
        piece: Piece { anchor_point: c(x, 21), ..Piece::spawned(PieceType::I) },
        next_piece: Piece::spawned(PieceType::I),
        score: Score { cleared_rows: 0, score: 0, dropped_pieces: 0, fours: 0, threes: 0, twos: 0, ones: 0 },
    }
}

/// Rows cleared by hard-dropping the probe at column `x`.
pub open spec fn probe_clears(b: Board, x: int) -> nat {
    probe(b, x).landed().lines_cleared()
}

/// The most rows a probe clears over the columns `0..k`.
pub open spec fn best_clears_upto(b: Board, k: int) -> nat
    decreases k,
{
    if k <= 0 {
        0
    } else {
        let m = best_clears_upto(b, k - 1);
        if probe_clears(b, k - 1) > m {
            probe_clears(b, k - 1)
        } else {
            m
        }
    }
}

pub open spec fn pow2(n: nat) -> nat
    decreases n,
{
    if n == 0 {
        1
    } else {
        2 * pow2((n - 1) as nat)
    }
}

/// Penalty for a typical column height `h`: doubling for every row above 4,
/// linear below.
pub open spec fn distance_score(h: int) -> int {
    if h >= 4 {
        pow2((h - 4) as nat) as int
    } else {
        4 - h
    }
}

/// `h` occurs in `s` at least as often as any other value.
pub open spec fn is_mode(s: Seq<usize>, h: usize) -> bool {
    s.contains(h) && forall|v: usize| s.to_multiset().count(v) <= s.to_multiset().count(h)
}

/// Relies on itertools' `Itertools::counts`: one entry per distinct value
/// of `values`, with the number of its occurrences, handed out in the order
/// in which the hash map is walked.
#[verifier::external_body]
fn value_counts(values: &Vec<usize>) -> (r: Vec<(usize, usize)>)
    ensures
        forall|i: int, j: int| 0 <= i < j < r@.len() ==> r@[i].0 != r@[j].0,
        forall|i: int| 0 <= i < r@.len() ==> values@.contains(#[trigger] r@[i].0),
        forall|i: int| 0 <= i < r@.len() ==> #[trigger] r@[i].1 == values@.to_multiset().count(r@[i].0),
        forall|k: int|
            #![trigger values@[k]]
            0 <= k < values@.len() ==> exists|i: int| 0 <= i < r@.len() && #[trigger] r@[i].0 == values@[k],
{
    values.iter().copied().counts().into_iter().collect()
}

/// The value of the entry `(value, count)` with the largest count; among
/// entries of equal largest count, the last one. `None` when there is no
/// entry.
pub fn most_frequent(entries: &Vec<(usize, usize)>) -> (r: Option<usize>)
    ensures
        r.is_none() == (entries@.len() == 0),
        r matches Some(v) ==> exists|i: int|
            0 <= i < entries@.len() && #[trigger] entries@[i].0 == v && (forall|j: int|
                0 <= j < entries@.len() ==> entries@[j].1 <= entries@[i].1) && (forall|j: int|
                i < j < entries@.len() ==> entries@[j].1 < entries@[i].1),
{
    if entries.len() == 0 {
        return None;
    }
    let mut best: usize = 0;
    let mut k: usize = 1;
    while k < entries.len()
        invariant
            1 <= k <= entries@.len(),
            best < k,
            forall|j: int| 0 <= j < k ==> entries@[j].1 <= entries@[best as int].1,
            forall|j: int| best < j < k ==> entries@[j].1 < entries@[best as int].1,
        decreases entries@.len() - k,
    {
        if entries[k].1 >= entries[best].1 {
            best = k;
        }
        k += 1;
    }
    assert(entries@[best as int].0 == entries@[best as int].0);
    Some(entries[best].0)
}

/// The most frequent of `values`: a value that occurs at least as often as
/// any other (which of several equally frequent values comes out depends on
/// the order in which the counts are handed out).
fn most_common(values: &Vec<usize>) -> (r: Option<usize>)
    ensures
        r.is_some() == (values@.len() > 0),
        r matches Some(h) ==> is_mode(values@, h),
{
    let entries = value_counts(values);
    let r = most_frequent(&entries);
    proof {
        values@.to_multiset_ensures();
        if values@.len() > 0 {
            assert(exists|i: int| 0 <= i < entries@.len() && #[trigger] entries@[i].0 == values@[0]);
        }
        if values@.len() == 0 && entries@.len() > 0 {
            assert(values@.contains(entries@[0].0));
        }
        if let Some(h) = r {
            let i = choose|i: int|
                0 <= i < entries@.len() && #[trigger] entries@[i].0 == h && (forall|j: int|
                    0 <= j < entries@.len() ==> entries@[j].1 <= entries@[i].1) && (forall|j: int|
                    i < j < entries@.len() ==> entries@[j].1 < entries@[i].1);
            assert(values@.contains(entries@[i].0));
            assert forall|v: usize| values@.to_multiset().count(v) <= values@.to_multiset().count(h) by {
                if values@.contains(v) {
                    let k = choose|k: int| 0 <= k < values@.len() && values@[k] == v;
                    let j = choose|j: int| 0 <= j < entries@.len() && #[trigger] entries@[j].0 == values@[k];
                    assert(entries@[j].1 == values@.to_multiset().count(entries@[j].0));
                    assert(entries@[i].1 == values@.to_multiset().count(entries@[i].0));
                }
            }
        }
    }
    r
}

/// The height of every column (see `col_height`).
pub fn get_cols_max_heights(state: &Board) -> (r: [usize; 10])
    ensures
        forall|x: int| 0 <= x < W ==> #[trigger] r@[x] == col_height(*state, x),
{
    let mut r: [usize; 10] = [0; 10];
    let mut x: usize = 0;
    while x < W
        invariant
            x <= W,
            forall|xx: int| 0 <= xx < x ==> #[trigger] r@[xx] == col_height(*state, xx),
        decreases W - x,
    {
        let mut h: usize = 0;
        let mut y: usize = 0;
        while y < H
            invariant
                x < W,
                y <= H,
                h == col_top(*state, x as int, y as int),
                h < H,
            decreases H - y,
        {
            if state.get(crate::entities::Coord::new(x as i32, y as i32)).is_some() {
                h = y;
            }
            y += 1;
        }
        r[x] = h;
        x += 1;
    }
    r
}


/// Holes: empty cells strictly below the highest occupied cell of their
/// column, summed over the columns.
pub fn holes_present(state: &Board) -> (r: HeuristicScore)
    ensures
        r == holes_upto(*state, W as int),
{
    let heights = get_cols_max_heights(state);
    let mut score: u64 = 0;
    let mut x: usize = 0;
    while x < W
        invariant
            x <= W,
            forall|xx: int| 0 <= xx < W ==> #[trigger] heights@[xx] == col_height(*state, xx),
            score == holes_upto(*state, x as int),
            score <= x * H,
        decreases W - x,
    {
        let top = heights[x];
        assert(top == col_top(*state, x as int, H as int));
        proof {
            lemma_col_top_bound(*state, x as int, H as int);
        }
        let mut y: usize = 0;
        let mut count: u64 = 0;
        while y < top
            invariant
                x < W,
                y <= top,
                top < H,
                count == empty_below(*state, x as int, y as int),
                count <= y,
            decreases top - y,
        {
            if state.get(crate::entities::Coord::new(x as i32, y as i32)).is_none() {
                count += 1;
            }
            y += 1;
        }
        score += count;
        x += 1;
    }
    score
}

proof fn lemma_col_top_bound(b: Board, x: int, n: int)
    requires
        0 <= n,
    ensures
        0 <= col_top(b, x, n) < if n > 0 { n } else { 1 },
    decreases n,
{
    if n > 0 {
        lemma_col_top_bound(b, x, n - 1);
    }
}

/// One more than the highest occupied row, or 0 for an empty board.
pub fn highest_block(state: &Board) -> (r: HeuristicScore)
    ensures
        r == highest_upto(*state, H as int),
{
    let mut h: u64 = 0;
    let mut y: usize = 0;
    while y < H
        invariant
            y <= H,
            h == highest_upto(*state, y as int),
            h <= y,
        decreases H - y,
    {
        let mut x: usize = 0;
        let mut any = false;
        while x < W
            invariant
                x <= W,
                y < H,
                any == exists|xx: int| 0 <= xx < x && (#[trigger] state.at(xx, y as int)).is_some(),
            decreases W - x,
        {
            if state.get(crate::entities::Coord::new(x as i32, y as i32)).is_some() {
                any = true;
            }
            x += 1;
        }
        if any {
            h = (y + 1) as u64;
        }
        y += 1;
    }
    h
}

/// Bumpiness: the sum of the absolute differences of neighbouring column
/// heights.
pub fn bumpyness(state: &Board) -> (r: HeuristicScore)
    ensures
        r == bump_upto(heights(*state), W as int),
{
    let hs = get_cols_max_heights(state);
    proof {
        assert forall|x: int| 0 <= x < W implies #[trigger] hs@[x] < H by {
            lemma_col_top_bound(*state, x, H as int);
        }
    }
    let mut score: u64 = 0;
    let mut i: usize = 1;
    while i < W
        invariant
            1 <= i <= W,
            forall|x: int| 0 <= x < W ==> #[trigger] hs@[x] == col_height(*state, x),
            forall|x: int| 0 <= x < W ==> #[trigger] hs@[x] < H,
            score == bump_upto(heights(*state), i as int),
            score <= i * H,
        decreases W - i,
    {
        let prev = hs[i - 1];
        let next = hs[i];
        let d = if prev >= next { prev - next } else { next - prev };
        score += d as u64;
        i += 1;
    }
    score
}

/// The tallest column height minus the shortest.
pub fn relative_diff(state: &Board) -> (r: HeuristicScore)
    ensures
        r == max_upto(heights(*state), W as int) - min_upto(heights(*state), W as int),
{
    let hs = get_cols_max_heights(state);
    let mut max = hs[0];
    let mut min = hs[0];
    let mut i: usize = 1;
    while i < W
        invariant
            1 <= i <= W,
            forall|x: int| 0 <= x < W ==> #[trigger] hs@[x] == col_height(*state, x),
            max == max_upto(heights(*state), i as int),
            min == min_upto(heights(*state), i as int),
            min <= max,
        decreases W - i,
    {
        if hs[i] > max {
            max = hs[i];
        }
        if hs[i] < min {
            min = hs[i];
        }
        i += 1;
    }
    (max - min) as u64
}

/// Penalty for a typical column height (see `distance_score`).
pub fn distance_from_4(height: usize) -> (r: HeuristicScore)
    requires
        height < H,
    ensures
        r == distance_score(height as int),
{
    if height >= 4 {
        let mut p: u64 = 1;
        let mut i: usize = 4;
        while i < height
            invariant
                4 <= i <= height,
                height < H,
                p == pow2((i - 4) as nat),
            decreases height - i,
        {
            proof {
                lemma_pow2_mono((i - 3) as nat, 19);
                lemma_pow2_19();
            }
            p = p * 2;
            i += 1;
        }
        p
    } else {
        (4 - height) as u64
    }
}

proof fn lemma_pow2_19()
    ensures
        pow2(19) == 524288,
{
    reveal_with_fuel(pow2, 20);
}

proof fn lemma_pow2_mono(a: nat, b: nat)
    requires
        a <= b,
    ensures
        pow2(a) <= pow2(b),
    decreases b,
{
    if a < b {
        lemma_pow2_mono(a, (b - 1) as nat);
    }
}

/// The penalty of `distance_from_4` for the most common column height.
pub fn distance_mean_from_4(state: &Board) -> (r: HeuristicScore)
    ensures
        exists|h: usize| is_mode(heights_usize(*state), h) && r == distance_score(h as int),
{
    let hs = get_cols_max_heights(state);
    let mut v: Vec<usize> = Vec::new();
    let mut i: usize = 0;
    while i < W
        invariant
            i <= W,
            forall|x: int| 0 <= x < W ==> #[trigger] hs@[x] == col_height(*state, x),
            v@ == heights_usize(*state).subrange(0, i as int),
        decreases W - i,
    {
        v.push(hs[i]);
        i += 1;
    }
    assert(v@ =~= heights_usize(*state));
    match most_common(&v) {
        Some(h) => {
            proof {
                let k = choose|k: int| 0 <= k < v@.len() && v@[k] == h;
                lemma_col_top_bound(*state, k, H as int);
            }
            distance_from_4(h)
        },
        None => 0,
    }
}

/// The column heights as machine integers.
pub open spec fn heights_usize(b: Board) -> Seq<usize> {
    Seq::new(W as nat, |x: int| col_height(b, x) as usize)
}


/// The probe at any column of the grid is a well-formed piece on the grid.
proof fn lemma_probe_wf(b: Board, x: int)
    requires
        0 <= x < W,
    ensures
        probe(b, x).piece.wf(),
        crate::game::inside(probe(b, x).piece),
        probe(b, x).next_piece.wf(),
        crate::game::inside(probe(b, x).next_piece),
{
    let s = Piece::spawned(PieceType::I);
    let blocks = crate::piece::spec_blocks(PieceType::I);
    assert(s.block_positions@[0] == blocks[0]);
    assert(s.block_positions@[1] == blocks[1]);
    assert(s.block_positions@[2] == blocks[2]);
    assert(s.block_positions@[3] == blocks[3]);
    crate::game::lemma_spawn_inside(s);
}

/// The most rows that an upright I piece clears when hard-dropped from the
/// spawn row in some column (tried in every column on a copy of the board).
pub fn clear_potential(state: &Board) -> (r: HeuristicScore)
    ensures
        r == best_clears_upto(*state, W as int),
{
    let mut game = Game {
        board: *state,
        piece: Piece::new(PieceType::I),
        next_piece: Piece::new(PieceType::I),
        width: W as i32,
        height: VISIBLE_H,
        score: Score::default(),
    };
    game.piece.anchor_point = crate::entities::Coord::new(0, game.piece.anchor_point.y);
    let mut maximum_clears: u64 = 0;
    let mut x: i32 = 0;
    while x < game.width
        invariant
            0 <= x <= W,
            game.width == W,
            game.height == VISIBLE_H,
            x < W ==> game@ == probe(*state, x as int),
            game.board == *state,
            maximum_clears == best_clears_upto(*state, x as int),
            maximum_clears <= H,
        decreases W - x,
    {
        proof {
            lemma_probe_wf(*state, x as int);
        }
        let mut cpy = game;
        cpy.drop_and_lock();
        proof {
            crate::board::lemma_count_from_bound(game@.landed().cleared(), 0);
            crate::game::lemma_landed_frame(game@);
        }
        let cleared = cpy.score.cleared_rows - game.score.cleared_rows;
        assert(cleared == probe_clears(*state, x as int));
        if cleared as u64 > maximum_clears {
            maximum_clears = cleared as u64;
        }
        if x + 1 < game.width {
            game.piece.anchor_point.x = x + 1;
        }
        x += 1;
    }
    maximum_clears
}

/// The board heuristics, one per variant.
#[derive(Clone, Copy, PartialEq, Eq, Structural, Hash, Debug)]
pub enum Heuristic {
    Bumpyness,
    HolesPresent,
    RelativeDiff,
    HighestBlock,
    ClearPotential,
    DistanceMeanFrom4,
}

/// `r` is a value that heuristic `h` gives on board `b` (all are functions of
/// the board but the last, whose most common height may be any of the tied ones).
pub open spec fn is_value_of(h: Heuristic, b: Board, r: int) -> bool {
    match h {
        Heuristic::Bumpyness => r == bump_upto(heights(b), W as int),
        Heuristic::HolesPresent => r == holes_upto(b, W as int),
        Heuristic::RelativeDiff => r == max_upto(heights(b), W as int) - min_upto(heights(b), W as int),
        Heuristic::HighestBlock => r == highest_upto(b, H as int),
        Heuristic::ClearPotential => r == best_clears_upto(b, W as int),
        Heuristic::DistanceMeanFrom4 => exists|m: usize| is_mode(heights_usize(b), m) && r == distance_score(m as int),
    }
}

impl Heuristic {
    /// The heuristic's value on a board.
    pub fn evaluate(&self, board: &Board) -> (r: HeuristicScore)
        ensures
            is_value_of(*self, *board, r as int),
    {
        match self {
            Heuristic::Bumpyness => bumpyness(board),
            Heuristic::HolesPresent => holes_present(board),
            Heuristic::RelativeDiff => relative_diff(board),
            Heuristic::HighestBlock => highest_block(board),
            Heuristic::ClearPotential => clear_potential(board),
            Heuristic::DistanceMeanFrom4 => distance_mean_from_4(board),
        }
    }
}

/// The heuristics an agent is weighted over, in their fixed order.
pub fn get_heuristics() -> (r: Vec<Heuristic>)
    ensures
        r@ == seq![
            Heuristic::Bumpyness,
            Heuristic::HolesPresent,
            Heuristic::RelativeDiff,
            Heuristic::HighestBlock,
            Heuristic::ClearPotential,
            Heuristic::DistanceMeanFrom4,
        ],
{
    let mut r: Vec<Heuristic> = Vec::new();
    r.push(Heuristic::Bumpyness);
    r.push(Heuristic::HolesPresent);
    r.push(Heuristic::RelativeDiff);
    r.push(Heuristic::HighestBlock);
    r.push(Heuristic::ClearPotential);
    r.push(Heuristic::DistanceMeanFrom4);
    assert(r@ =~= seq![
        Heuristic::Bumpyness,
        Heuristic::HolesPresent,
        Heuristic::RelativeDiff,
        Heuristic::HighestBlock,
        Heuristic::ClearPotential,
        Heuristic::DistanceMeanFrom4,
    ]);
    r
}

} // verus!
