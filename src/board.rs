use vstd::prelude::*;
use crate::entities::{Coord, PieceType};

verus! {

broadcast use vstd::array::group_array_axioms;

/// Number of columns.
pub const W: usize = 10;

/// Number of rows, the hidden rows above the visible field included.
pub const H: usize = 24;

/// One row of cells, from column 0 to column `W - 1`.
pub type Row = Seq<Option<PieceType>>;

pub open spec fn empty_row() -> Row {
    Seq::new(W as nat, |x: int| None::<PieceType>)
}

/// The rows `0..n` of `rows` whose index is not in `del`, in their order.
pub open spec fn kept_rows(rows: Seq<Row>, del: Set<int>, n: int) -> Seq<Row>
    decreases n,
{
    if n <= 0 {
        Seq::empty()
    } else if del.contains(n - 1) {
        kept_rows(rows, del, n - 1)
    } else {
        kept_rows(rows, del, n - 1).push(rows[n - 1])
    }
}

/// `rows` with the rows indexed by `del` taken out: the rows above each of
/// them move down, and empty rows fill the top.
pub open spec fn without_rows(rows: Seq<Row>, del: Set<int>) -> Seq<Row> {
    let kept = kept_rows(rows, del, rows.len() as int);
    kept + Seq::new((rows.len() - kept.len()) as nat, |i: int| empty_row())
}

/// How many of the indices `k..H` lie in `del`.
pub open spec fn count_from(del: Set<int>, k: int) -> nat
    decreases H - k,
{
    if k >= H {
        0
    } else {
        count_from(del, k + 1) + if del.contains(k) { 1nat } else { 0nat }
    }
}

pub open spec fn row_is_full(r: Row) -> bool {
    forall|x: int| 0 <= x < W ==> (#[trigger] r[x]).is_some()
}

/// The full rows among `rows` whose index is named in `ys`.
pub open spec fn named_full_rows(rows: Seq<Row>, ys: Seq<i32>) -> Set<int> {
    Set::new(|y: int| 0 <= y < rows.len() && row_is_full(rows[y]) && ys.contains(y as i32))
}

/// At most `H - k` indices lie in `k..H`.
pub proof fn lemma_count_from_bound(del: Set<int>, k: int)
    requires
        0 <= k <= H,
    ensures
        count_from(del, k) <= H - k,
    decreases H - k,
{
    if k < H {
        lemma_count_from_bound(del, k + 1);
    }
}

/// `a` comes before `b` column by column, each column from the bottom up.
pub open spec fn cell_before(a: Coord, b: Coord) -> bool {
    a.x < b.x || (a.x == b.x && a.y < b.y)
}

/// The grid of locked cells. Cell `(x, y)` is stored at `cells[y * W + x]`;
/// row 0 is the bottom row.
#[derive(Clone, Copy, PartialEq, Eq, Hash, Debug)]
pub struct Board {
    pub cells: [Option<PieceType>; 240],
}

impl Board {
    /// The cell at `(x, y)`; `None` off the grid.
    pub open spec fn at(self, x: int, y: int) -> Option<PieceType> {
        if 0 <= x < W && 0 <= y < H {
            self.cells@[y * (W as int) + x]
        } else {
            None
        }
    }

    pub open spec fn row(self, y: int) -> Row {
        Seq::new(W as nat, |x: int| self.at(x, y))
    }

    /// The board as its rows, bottom row first.
    pub open spec fn rows(self) -> Seq<Row> {
        Seq::new(H as nat, |y: int| self.row(y))
    }

    pub open spec fn row_full(self, y: int) -> bool {
        0 <= y < H && forall|x: int| 0 <= x < W ==> (#[trigger] self.at(x, y)).is_some()
    }

    /// Row `y` is one that a clear of the rows `ys` removes.
    pub open spec fn clears(self, ys: Seq<i32>, y: int) -> bool {
        named_full_rows(self.rows(), ys).contains(y)
    }

    /// The rows that a clear of the rows `ys` removes.
    pub open spec fn cleared_set(self, ys: Seq<i32>) -> Set<int> {
        named_full_rows(self.rows(), ys)
    }

    pub open spec fn is_empty(self) -> bool {
        forall|x: int, y: int| (#[trigger] self.at(x, y)).is_none()
    }

    pub fn new() -> (r: Board)
        ensures
            r.is_empty(),
    {
        let r = Board { cells: [None; 240] };
        assert(forall|i: int| 0 <= i < 240 ==> r.cells@[i].is_none());
        r
    }

    /// Writes one cell.
    pub fn set(&mut self, block_type: Option<PieceType>, loc: Coord)
        requires
            0 <= loc.x < W,
            0 <= loc.y < H,
        ensures
            forall|x: int, y: int|
                #[trigger] final(self).at(x, y) == if x == loc.x && y == loc.y {
                    block_type
                } else {
                    old(self).at(x, y)
                },
    {
        let i = loc.y as usize * W + loc.x as usize;
        self.cells[i] = block_type;
    }

    /// Reads one cell; `None` for a position off the grid.
    pub fn get(&self, loc: Coord) -> (r: Option<PieceType>)
        ensures
            r == self.at(loc.x as int, loc.y as int),
    {
        if 0 <= loc.x && (loc.x as usize) < W && 0 <= loc.y && (loc.y as usize) < H {
            self.cells[loc.y as usize * W + loc.x as usize]
        } else {
            None
        }
    }

    /// The visible rows `0..20`, top row first, each from column 0 to
    /// column `W - 1`: the layout in which the board is drawn.
    pub fn visible_rows(&self) -> (r: Vec<Vec<Option<PieceType>>>)
        ensures
            r@.len() == 20,
            forall|i: int| 0 <= i < 20 ==> (#[trigger] r@[i])@.len() == W,
            forall|i: int, x: int| 0 <= i < 20 && 0 <= x < W ==> #[trigger] r@[i]@[x] == self.at(x, 19 - i),
    {
        let mut r: Vec<Vec<Option<PieceType>>> = Vec::new();
        let mut i: usize = 0;
        while i < 20
            invariant
                i <= 20,
                r@.len() == i,
                forall|k: int| 0 <= k < i ==> (#[trigger] r@[k])@.len() == W,
                forall|k: int, x: int| 0 <= k < i && 0 <= x < W ==> #[trigger] r@[k]@[x] == self.at(x, 19 - k),
            decreases 20 - i,
        {
            let mut row: Vec<Option<PieceType>> = Vec::new();
            let mut x: usize = 0;
            while x < W
                invariant
                    i < 20,
                    x <= W,
                    row@.len() == x,
                    forall|xx: int| 0 <= xx < x ==> #[trigger] row@[xx] == self.at(xx, 19 - i),
                decreases W - x,
            {
                row.push(self.get(Coord::new(x as i32, (19 - i) as i32)));
                x += 1;
            }
            r.push(row);
            i += 1;
        }
        r
    }

    /// The occupied cells with their piece type, column by column, each
    /// column from the bottom row up; each cell once.
    pub fn iter_blocks(&self) -> (r: Vec<(Coord, PieceType)>)
        ensures
            forall|i: int|
                0 <= i < r@.len() ==> self.at(#[trigger] r@[i].0.x as int, r@[i].0.y as int)
                    == Some(r@[i].1),
            forall|x: int, y: int|
                0 <= x < W && 0 <= y < H && (#[trigger] self.at(x, y)).is_some() ==> exists|i: int|
                    0 <= i < r@.len() && r@[i].0.x == x && r@[i].0.y == y,
            forall|i: int, j: int|
                0 <= i < j < r@.len() ==> cell_before(#[trigger] r@[i].0, #[trigger] r@[j].0),
    {
        let mut r: Vec<(Coord, PieceType)> = Vec::new();
        let mut x: usize = 0;
        while x < W
            invariant
                x <= W,
                forall|i: int|
                    0 <= i < r@.len() ==> self.at(#[trigger] r@[i].0.x as int, r@[i].0.y as int)
                        == Some(r@[i].1),
                forall|xx: int, y: int|
                    0 <= xx < x && 0 <= y < H && (#[trigger] self.at(xx, y)).is_some() ==> exists|
                        i: int,
                    | 0 <= i < r@.len() && r@[i].0.x == xx && r@[i].0.y == y,
                forall|i: int, j: int|
                    0 <= i < j < r@.len() ==> cell_before(#[trigger] r@[i].0, #[trigger] r@[j].0),
                forall|i: int| 0 <= i < r@.len() ==> (#[trigger] r@[i].0).x < x,
            decreases W - x,
        {
            let mut y: usize = 0;
            while y < H
                invariant
                    x < W,
                    y <= H,
                    forall|i: int|
                        0 <= i < r@.len() ==> self.at(
                            #[trigger] r@[i].0.x as int,
                            r@[i].0.y as int,
                        ) == Some(r@[i].1),
                    forall|xx: int, yy: int|
                        (0 <= xx < x || (xx == x && yy < y)) && 0 <= yy < H && (#[trigger] self.at(
                            xx,
                            yy,
                        )).is_some() ==> exists|i: int|
                            0 <= i < r@.len() && r@[i].0.x == xx && r@[i].0.y == yy,
                    forall|i: int, j: int|
                        0 <= i < j < r@.len() ==> cell_before(#[trigger] r@[i].0, #[trigger] r@[j].0),
                    forall|i: int|
                        0 <= i < r@.len() ==> cell_before(#[trigger] r@[i].0, (Coord { x: x as i32, y: y as i32 })),
                decreases H - y,
            {
                let c = self.get(Coord::new(x as i32, y as i32));
                let ghost before = r@;
                if let Some(t) = c {
                    r.push((Coord::new(x as i32, y as i32), t));
                }
                assert forall|xx: int, yy: int|
                    (0 <= xx < x || (xx == x && yy < y + 1)) && 0 <= yy < H && (#[trigger] self.at(
                        xx,
                        yy,
                    )).is_some() implies exists|i: int|
                        0 <= i < r@.len() && r@[i].0.x == xx && r@[i].0.y == yy by {
                    if xx == x && yy == y {
                        assert(r@[r@.len() - 1].0.x == xx && r@[r@.len() - 1].0.y == yy);
                    } else {
                        let i = choose|i: int|
                            0 <= i < before.len() && before[i].0.x == xx && before[i].0.y == yy;
                        assert(r@[i] == before[i]);
                    }
                }
                assert forall|i: int| 0 <= i < r@.len() implies cell_before(
                    #[trigger] r@[i].0,
                    Coord { x: x as i32, y: (y + 1) as i32 },
                ) by {
                    if i < before.len() {
                        assert(r@[i] == before[i]);
                    }
                }
                y += 1;
            }
            x += 1;
        }
        r
    }
}


/// Below the least index of `del`, the kept rows are the rows themselves.
proof fn lemma_kept_below(rows: Seq<Row>, del: Set<int>, n: int, m: int)
    requires
        0 <= n <= m <= rows.len(),
        forall|d: int| del.contains(d) ==> d >= m,
    ensures
        kept_rows(rows, del, n) == rows.subrange(0, n),
    decreases n,
{
    if n > 0 {
        lemma_kept_below(rows, del, n - 1, m);
        assert(kept_rows(rows, del, n) =~= rows.subrange(0, n));
    }
}

/// Rows below the least index of `del` keep their place.
proof fn lemma_kept_prefix(rows: Seq<Row>, del: Set<int>, n: int, m: int)
    requires
        0 <= m <= n <= rows.len(),
        forall|d: int| del.contains(d) ==> d >= m,
    ensures
        kept_rows(rows, del, n).len() >= m,
        kept_rows(rows, del, n).len() <= n,
        forall|j: int| 0 <= j < m ==> #[trigger] kept_rows(rows, del, n)[j] == rows[j],
    decreases n,
{
    if n == m {
        lemma_kept_below(rows, del, n, m);
    } else {
        lemma_kept_prefix(rows, del, n - 1, m);
    }
}

/// Taking out one more row, lower than all rows taken out so far.
proof fn lemma_kept_insert(rows: Seq<Row>, del: Set<int>, d: int, n: int)
    requires
        0 <= d < n <= rows.len(),
        forall|e: int| del.contains(e) ==> e > d,
    ensures
        kept_rows(rows, del, n).len() > d,
        kept_rows(rows, del.insert(d), n) == kept_rows(rows, del, n).remove(d),
    decreases n,
{
    let del2 = del.insert(d);
    if n == d + 1 {
        lemma_kept_below(rows, del2, d, d);
        lemma_kept_below(rows, del, d + 1, d + 1);
        assert(kept_rows(rows, del2, n) =~= kept_rows(rows, del, n).remove(d));
    } else {
        lemma_kept_insert(rows, del, d, n - 1);
        assert(del2.contains(n - 1) == del.contains(n - 1));
        assert(kept_rows(rows, del2, n) =~= kept_rows(rows, del, n).remove(d));
    }
}

proof fn lemma_without_insert(rows: Seq<Row>, del: Set<int>, d: int)
    requires
        0 <= d < rows.len(),
        forall|e: int| del.contains(e) ==> e > d,
    ensures
        without_rows(rows, del.insert(d)) == without_rows(rows, del).remove(d).push(empty_row()),
{
    let n = rows.len() as int;
    lemma_kept_insert(rows, del, d, n);
    lemma_kept_prefix(rows, del, n, 0);
    assert(without_rows(rows, del.insert(d)) =~= without_rows(rows, del).remove(d).push(
        empty_row(),
    ));
}

proof fn lemma_without_nothing(rows: Seq<Row>)
    ensures
        without_rows(rows, Set::empty()) == rows,
{
    lemma_kept_below(rows, Set::empty(), rows.len() as int, rows.len() as int);
    assert(without_rows(rows, Set::empty()) =~= rows);
}

impl Board {
    /// Whether row `y` is on the grid and full.
    fn is_whole_line_occupied(&self, y: i32) -> (r: bool)
        ensures
            r == self.row_full(y as int),
    {
        if y < 0 || y as usize >= H {
            return false;
        }
        let mut x: usize = 0;
        while x < W
            invariant
                0 <= y < H,
                x <= W,
                forall|xx: int| 0 <= xx < x ==> (#[trigger] self.at(xx, y as int)).is_some(),
            decreases W - x,
        {
            if self.get(Coord::new(x as i32, y)).is_none() {
                return false;
            }
            x += 1;
        }
        true
    }

    /// Removes row `y`: every row above it moves down by one and the top row
    /// becomes empty.
    fn delete_line_and_shift_upper_lines_down(&mut self, y: usize)
        requires
            y < H,
        ensures
            final(self).rows() == old(self).rows().remove(y as int).push(empty_row()),
    {
        let ghost before = *self;
        let mut i: usize = y * W;
        while i < (H - 1) * W
            invariant
                y * W <= i <= (H - 1) * W,
                forall|j: int| 0 <= j < y * W ==> self.cells@[j] == before.cells@[j],
                forall|j: int| y * W <= j < i ==> self.cells@[j] == before.cells@[j + W],
                forall|j: int| i <= j < H * W ==> self.cells@[j] == before.cells@[j],
            decreases (H - 1) * W - i,
        {
            let upper = self.cells[i + W];
            self.cells[i] = upper;
            i += 1;
        }
        while i < H * W
            invariant
                y < H,
                (H - 1) * W <= i <= H * W,
                forall|j: int| 0 <= j < y * W ==> self.cells@[j] == before.cells@[j],
                forall|j: int| y * W <= j < (H - 1) * W ==> self.cells@[j] == before.cells@[j + W],
                forall|j: int| (H - 1) * W <= j < i ==> self.cells@[j].is_none(),
            decreases H * W - i,
        {
            self.cells[i] = None;
            i += 1;
        }
        let ghost expect = before.rows().remove(y as int).push(empty_row());
        assert forall|r: int| 0 <= r < H implies #[trigger] self.rows()[r] == expect[r] by {
            assert(self.rows()[r] =~= expect[r]);
        }
        assert(self.rows() =~= expect);
    }

    /// Removes, among the rows `ys`, those that are full, and returns how many
    /// were removed. Each full row is removed once however often `ys` names it;
    /// rows above a removed row move down and empty rows fill the top.
    pub fn delete_full_lines(&mut self, ys: Vec<i32>) -> (r: usize)
        ensures
            final(self).rows() == without_rows(old(self).rows(), old(self).cleared_set(ys@)),
            r == count_from(old(self).cleared_set(ys@), 0),
    {
        let ghost orig = *self;
        let ghost del = orig.cleared_set(ys@);
        let mut count: usize = 0;
        let mut k: usize = H;
        proof {
            lemma_without_nothing(orig.rows());
            assert(Set::<int>::empty() =~= Set::new(|d: int| del.contains(d) && d >= H));
        }
        while k > 0
            invariant
                k <= H,
                del == orig.cleared_set(ys@),
                self.rows() == without_rows(
                    orig.rows(),
                    Set::new(|d: int| del.contains(d) && d >= k),
                ),
                count == count_from(del, k as int),
                count <= H - k,
            decreases k,
        {
            let y = k - 1;
            let ghost above = Set::new(|d: int| del.contains(d) && d >= k);
            let ghost below = Set::new(|d: int| del.contains(d) && d >= y);
            proof {
                lemma_kept_prefix(orig.rows(), above, H as int, k as int);
                assert(self.rows()[y as int] == orig.rows()[y as int]);
                assert forall|x: int| 0 <= x < W implies #[trigger] self.at(x, y as int)
                    == orig.at(x, y as int) by {
                    assert(self.rows()[y as int][x] == orig.rows()[y as int][x]);
                }
                assert(self.row_full(y as int) == orig.row_full(y as int)) by {
                    if self.row_full(y as int) {
                        assert forall|x: int| 0 <= x < W implies (#[trigger] orig.at(
                            x,
                            y as int,
                        )).is_some() by {
                            assert(self.at(x, y as int).is_some());
                        }
                    }
                    if orig.row_full(y as int) {
                        assert forall|x: int| 0 <= x < W implies (#[trigger] self.at(
                            x,
                            y as int,
                        )).is_some() by {
                            assert(orig.at(x, y as int).is_some());
                        }
                    }
                }
            }
            let full = self.is_whole_line_occupied(y as i32);
            let mut named = false;
            let mut j: usize = 0;
            while j < ys.len()
                invariant
                    j <= ys.len(),
                    named == exists|jj: int| 0 <= jj < j && ys@[jj] == y as i32,
                decreases ys.len() - j,
            {
                if ys[j] == y as i32 {
                    named = true;
                }
                j += 1;
            }
            if full && named {
                proof {
                    assert(orig.row_full(y as int));
                    lemma_row_full_iff(orig, y as int);
                    let jj = choose|jj: int| 0 <= jj < ys@.len() && ys@[jj] == y as i32;
                    assert(ys@.contains(y as i32));
                    assert(del.contains(y as int));
                    assert(below =~= above.insert(y as int));
                    lemma_without_insert(orig.rows(), above, y as int);
                }
                self.delete_line_and_shift_upper_lines_down(y);
                count += 1;
            } else {
                proof {
                    lemma_row_full_iff(orig, y as int);
                    if del.contains(y as int) {
                        assert(orig.row_full(y as int));
                        assert(self.row_full(y as int));
                        assert(ys@.contains(y as i32));
                        let jj = choose|jj: int| 0 <= jj < ys@.len() && ys@[jj] == y as i32;
                        assert(named);
                    }
                    assert(!del.contains(y as int));
                    assert(below =~= above);
                }
            }
            k = y;
        }
        proof {
            assert(Set::new(|d: int| del.contains(d) && d >= 0) =~= del);
        }
        count
    }
}


/// Every kept row is one of the rows that were not taken out.
pub(crate) proof fn lemma_kept_origin(rows: Seq<Row>, del: Set<int>, n: int)
    requires
        0 <= n <= rows.len(),
    ensures
        forall|j: int|
            0 <= j < kept_rows(rows, del, n).len() ==> exists|i: int|
                j <= i < n && !del.contains(i) && #[trigger] kept_rows(rows, del, n)[j] == rows[i],
    decreases n,
{
    if n > 0 {
        lemma_kept_origin(rows, del, n - 1);
        lemma_kept_len(rows, del, n - 1);
        let k = kept_rows(rows, del, n);
        let k1 = kept_rows(rows, del, n - 1);
        assert forall|j: int| 0 <= j < k.len() implies exists|i: int|
            j <= i < n && !del.contains(i) && #[trigger] k[j] == rows[i] by {
            if j < k1.len() {
                let i = choose|i: int| j <= i < n - 1 && !del.contains(i) && k1[j] == rows[i];
                assert(k[j] == rows[i]);
            } else {
                assert(k[j] == rows[n - 1]);
            }
        }
    }
}

/// A clear of the rows `ys` leaves no full row behind, provided that every
/// full row of the board is among `ys` (which holds of a board that had no
/// full row before the last piece locked, with `ys` the rows of that piece).
pub proof fn lemma_clear_leaves_no_full_row(b: Board, ys: Seq<i32>)
    requires
        forall|y: int| 0 <= y < H && #[trigger] b.row_full(y) ==> ys.contains(y as i32),
    ensures
        forall|y: int|
            0 <= y < H ==> !row_is_full(
                #[trigger] without_rows(b.rows(), b.cleared_set(ys))[y],
            ),
{
    let rows = b.rows();
    let del = b.cleared_set(ys);
    let kept = kept_rows(rows, del, H as int);
    lemma_kept_origin(rows, del, H as int);
    assert(kept.len() <= H) by {
        lemma_kept_len(rows, del, H as int);
    }
    assert forall|y: int| 0 <= y < H implies !row_is_full(
        #[trigger] without_rows(rows, del)[y],
    ) by {
        let r = without_rows(rows, del)[y];
        if y < kept.len() {
            let i = choose|i: int| y <= i < H && !del.contains(i) && kept[y] == rows[i];
            assert(r == rows[i]);
            if row_is_full(rows[i]) {
                lemma_row_full_iff(b, i);
                assert(b.row_full(i));
                assert(ys.contains(i as i32));
                assert(del.contains(i));
            }
        } else {
            assert(r == empty_row());
            assert(r[0].is_none());
        }
    }
}

/// A row of the board is full exactly when its row of the view is.
pub proof fn lemma_row_full_iff(b: Board, y: int)
    requires
        0 <= y < H,
    ensures
        b.row_full(y) == row_is_full(b.rows()[y]),
{
    if b.row_full(y) {
        assert forall|x: int| 0 <= x < W implies (#[trigger] b.rows()[y][x]).is_some() by {
            assert(b.at(x, y).is_some());
        }
    }
    if row_is_full(b.rows()[y]) {
        assert forall|x: int| 0 <= x < W implies (#[trigger] b.at(x, y)).is_some() by {
            assert(b.rows()[y][x].is_some());
        }
    }
}

pub(crate) proof fn lemma_kept_len(rows: Seq<Row>, del: Set<int>, n: int)
    requires
        0 <= n,
    ensures
        kept_rows(rows, del, n).len() <= n,
    decreases n,
{
    if n > 0 {
        lemma_kept_len(rows, del, n - 1);
    }
}

} // verus!
