use vstd::prelude::*;
use crate::entities::{Coord, PieceType};
use crate::piece::{c, small};

verus! {

/// The wall-kick table of a piece type: each entry gives, for every rotation
/// index, an offset; a rotation from index `a` to index `b` tries, entry by
/// entry, the anchor moved by `entry[a] - entry[b]`. The O entry makes every
/// rotation of the square leave its four cells where they were.
pub open spec fn kick_table(t: PieceType) -> Seq<Seq<Coord>> {
    match t {
        PieceType::I => seq![
            seq![c(0, 0), c(-1, 0), c(-1, 1), c(0, 1)],
            seq![c(-1, 0), c(0, 0), c(1, 1), c(0, 1)],
            seq![c(2, 0), c(0, 0), c(-2, 1), c(0, 1)],
            seq![c(-1, 0), c(0, 1), c(1, 0), c(0, -1)],
            seq![c(2, 0), c(0, -2), c(-2, 0), c(0, 2)],
        ],
        PieceType::O => seq![seq![c(0, 0), c(0, -1), c(-1, -1), c(-1, 0)]],
        _ => seq![
            seq![c(0, 0), c(0, 0), c(0, 0), c(0, 0)],
            seq![c(0, 0), c(1, 0), c(0, 0), c(-1, 0)],
            seq![c(0, 0), c(1, -1), c(0, 0), c(-1, -1)],
            seq![c(0, 0), c(0, 2), c(0, 0), c(0, 2)],
            seq![c(0, 0), c(1, 2), c(0, 0), c(-1, 2)],
        ],
    }
}

/// Every entry of every kick table has four offsets within two of the origin.
pub proof fn lemma_kick_table_small(t: PieceType)
    ensures
        forall|i: int, j: int|
            0 <= i < kick_table(t).len() && 0 <= j < 4 ==> kick_table(t)[i].len() == 4 && small(
                #[trigger] kick_table(t)[i][j],
            ),
{
}

fn entry(a: (i32, i32), b: (i32, i32), c2: (i32, i32), d: (i32, i32)) -> (r: [Coord; 4])
    ensures
        r@ == seq![c(a.0 as int, a.1 as int), c(b.0 as int, b.1 as int), c(c2.0 as int, c2.1 as int), c(d.0 as int, d.1 as int)],
{
    let r = [Coord::new(a.0, a.1), Coord::new(b.0, b.1), Coord::new(c2.0, c2.1), Coord::new(d.0, d.1)];
    assert(r@ =~= seq![c(a.0 as int, a.1 as int), c(b.0 as int, b.1 as int), c(c2.0 as int, c2.1 as int), c(d.0 as int, d.1 as int)]);
    r
}

/// The wall-kick table of a piece type (see `kick_table`).
pub fn get_offset_table(block_type: PieceType) -> (r: Vec<[Coord; 4]>)
    ensures
        r@.len() == kick_table(block_type).len(),
        forall|i: int| 0 <= i < r@.len() ==> (#[trigger] r@[i])@ == kick_table(block_type)[i],
{
    let mut r: Vec<[Coord; 4]> = Vec::new();
    match block_type {
        PieceType::I => {
            r.push(entry((0, 0), (-1, 0), (-1, 1), (0, 1)));
            r.push(entry((-1, 0), (0, 0), (1, 1), (0, 1)));
            r.push(entry((2, 0), (0, 0), (-2, 1), (0, 1)));
            r.push(entry((-1, 0), (0, 1), (1, 0), (0, -1)));
            r.push(entry((2, 0), (0, -2), (-2, 0), (0, 2)));
        },
        PieceType::O => {
            r.push(entry((0, 0), (0, -1), (-1, -1), (-1, 0)));
        },
        _ => {
            r.push(entry((0, 0), (0, 0), (0, 0), (0, 0)));
            r.push(entry((0, 0), (1, 0), (0, 0), (-1, 0)));
            r.push(entry((0, 0), (1, -1), (0, 0), (-1, -1)));
            r.push(entry((0, 0), (0, 2), (0, 0), (0, 2)));
            r.push(entry((0, 0), (1, 2), (0, 0), (-1, 2)));
        },
    }
    r
}

} // verus!
