use tetris_ai::board::Board;
use tetris_ai::entities::{Coord, PieceType};

fn fill_row(b: &mut Board, y: i32, t: PieceType) {
    for x in 0..10 {
        b.set(Some(t), Coord::new(x, y));
    }
}

#[test]
fn get_is_none_off_the_grid() {
    let mut b = Board::new();
    b.set(Some(PieceType::Z), Coord::new(9, 23));
    assert_eq!(b.get(Coord::new(9, 23)), Some(PieceType::Z));
    assert_eq!(b.get(Coord::new(10, 0)), None);
    assert_eq!(b.get(Coord::new(-1, 0)), None);
    assert_eq!(b.get(Coord::new(0, 24)), None);
    assert_eq!(b.iter_blocks(), vec![(Coord::new(9, 23), PieceType::Z)]);
}

#[test]
fn full_rows_named_are_cleared_once_and_the_rest_falls() {
    let mut b = Board::new();
    fill_row(&mut b, 0, PieceType::I);
    fill_row(&mut b, 2, PieceType::O);
    b.set(Some(PieceType::T), Coord::new(3, 1));
    b.set(Some(PieceType::S), Coord::new(5, 3));
    b.set(Some(PieceType::L), Coord::new(0, 23));
    let n = b.delete_full_lines(vec![0, 2, 0, 2, 1]);
    assert_eq!(n, 2);
    assert_eq!(b.get(Coord::new(3, 0)), Some(PieceType::T));
    assert_eq!(b.get(Coord::new(5, 1)), Some(PieceType::S));
    assert_eq!(b.get(Coord::new(0, 21)), Some(PieceType::L));
    assert_eq!(b.get(Coord::new(0, 23)), None);
    assert_eq!(b.get(Coord::new(0, 0)), None);
    for x in 0..10 {
        assert_eq!(b.get(Coord::new(x, 22)), None);
    }
}

#[test]
fn full_rows_not_named_stay() {
    let mut b = Board::new();
    fill_row(&mut b, 0, PieceType::I);
    fill_row(&mut b, 1, PieceType::J);
    let n = b.delete_full_lines(vec![1, 5, -3, 40]);
    assert_eq!(n, 1);
    assert_eq!(b.get(Coord::new(4, 0)), Some(PieceType::I));
    assert_eq!(b.get(Coord::new(4, 1)), None);
}

#[test]
fn no_full_row_remains_after_clearing_all_named() {
    let mut b = Board::new();
    for y in 0..4 {
        fill_row(&mut b, y, PieceType::I);
    }
    b.set(None, Coord::new(7, 2));
    let n = b.delete_full_lines(vec![0, 1, 2, 3]);
    assert_eq!(n, 3);
    for y in 0..24 {
        let full = (0..10).all(|x| b.get(Coord::new(x, y)).is_some());
        assert!(!full);
    }
    assert_eq!(b.get(Coord::new(7, 0)), None);
    assert_eq!(b.get(Coord::new(6, 0)), Some(PieceType::I));
}

#[test]
fn blocks_come_column_by_column_once_each() {
    let mut b = Board::new();
    b.set(Some(PieceType::T), Coord::new(4, 7));
    b.set(Some(PieceType::S), Coord::new(1, 3));
    b.set(Some(PieceType::O), Coord::new(4, 2));
    assert_eq!(
        b.iter_blocks(),
        vec![
            (Coord::new(1, 3), PieceType::S),
            (Coord::new(4, 2), PieceType::O),
            (Coord::new(4, 7), PieceType::T)
        ]
    );
}
