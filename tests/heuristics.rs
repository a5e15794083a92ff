use tetris_ai::entities::{Coord, PieceType as PT};
use tetris_ai::game_builder::GameBuilder;
use tetris_ai::heuristics::{
    bumpyness, clear_potential, distance_from_4, distance_mean_from_4, get_cols_max_heights,
    get_heuristics, highest_block, holes_present, most_frequent, relative_diff, Heuristic,
};

#[test]
fn test_get_cols_max_heights() {
    let game = GameBuilder::new()
        .add_piece(PT::I, Coord::new(0, 0))
        .add_piece(PT::I, Coord::new(1, 1))
        .add_piece(PT::I, Coord::new(2, 5))
        .add_piece(PT::I, Coord::new(5, 9))
        .build();
    let heights = get_cols_max_heights(&game.board);

    assert_eq!(heights, [0, 1, 5, 0, 0, 9, 0, 0, 0, 0]);
}

#[test]
fn test_highest_block_single_i() {
    let game = GameBuilder::new()
        .add_piece(PT::I, Coord::new(0, 0))
        .add_piece(PT::I, Coord::new(0, 1))
        .add_piece(PT::I, Coord::new(0, 2))
        .add_piece(PT::I, Coord::new(0, 3))
        .build();

    let res = highest_block(&game.board) as f32;
    assert!((res - 4.).abs() < f32::EPSILON);
}

#[test]
fn test_highest_block_irregular_dots() {
    let game = GameBuilder::new()
        .add_piece(PT::I, Coord::new(3, 1))
        .add_piece(PT::I, Coord::new(9, 5))
        .add_piece(PT::I, Coord::new(7, 0))
        .add_piece(PT::I, Coord::new(4, 4))
        .build();

    let res = highest_block(&game.board) as f32;
    assert!((res - 6.).abs() < f32::EPSILON);
}

#[test]
fn test_bumpyness() {
    let game = GameBuilder::new()
        .add_piece(PT::I, Coord::new(0, 0))
        .add_piece(PT::I, Coord::new(1, 2))
        .add_piece(PT::I, Coord::new(2, 2))
        .add_piece(PT::I, Coord::new(3, 3))
        .add_piece(PT::I, Coord::new(4, 4))
        .add_piece(PT::I, Coord::new(5, 1))
        .add_piece(PT::I, Coord::new(6, 4))
        .add_piece(PT::I, Coord::new(7, 2))
        .add_piece(PT::I, Coord::new(8, 2))
        .add_piece(PT::I, Coord::new(9, 2))
        .build();
    let res = bumpyness(&game.board) as f32;
    assert!((res - 12.).abs() < f32::EPSILON);
}

#[test]
fn test_relative_diff() {
    let game = GameBuilder::new()
        .add_piece(PT::I, Coord::new(0, 1))
        .add_piece(PT::I, Coord::new(3, 5))
        .add_piece(PT::I, Coord::new(2, 7))
        .build();

    let res = relative_diff(&game.board) as f32;
    assert!((res - 7.).abs() < f32::EPSILON);
}

#[test]
fn test_holes_present() {
    let game = GameBuilder::new()
        .add_piece(PT::I, Coord::new(0, 1))
        .add_piece(PT::I, Coord::new(1, 0))
        .add_piece(PT::I, Coord::new(3, 3))
        .build();

    let res = holes_present(&game.board) as f32;
    assert!((res - 4.).abs() < f32::EPSILON);
}

#[test]
fn test_clear_potential_on_edges() {
    // well on left
    let mut gb = GameBuilder::new();
    for x in 1..10 {
        gb = gb.add_piece(PT::I, Coord::new(x, 0));
    }
    let game = gb.build();

    let res = clear_potential(&game.board) as f32;
    assert!((res - 1.).abs() < f32::EPSILON);

    // well on right
    let mut gb = GameBuilder::new();
    for x in 0..9 {
        gb = gb.add_piece(PT::I, Coord::new(x, 0));
    }
    let game = gb.build();

    let res = clear_potential(&game.board) as f32;
    assert!((res - 1.).abs() < f32::EPSILON);

    // well on right height 2
    let mut gb = GameBuilder::new();
    for x in 0..9 {
        gb = gb.add_piece(PT::I, Coord::new(x, 0));
        gb = gb.add_piece(PT::I, Coord::new(x, 1));
    }
    let game = gb.build();

    let res = clear_potential(&game.board) as f32;
    assert!((res - 2.).abs() < f32::EPSILON);
}

#[test]
fn highest_block_of_empty_board_is_zero() {
    let game = GameBuilder::new().build();
    assert_eq!(highest_block(&game.board), 0);
    assert_eq!(holes_present(&game.board), 0);
    assert_eq!(bumpyness(&game.board), 0);
    assert_eq!(relative_diff(&game.board), 0);
    assert_eq!(clear_potential(&game.board), 0);
}

#[test]
fn clear_potential_finds_a_four_row_well() {
    let mut gb = GameBuilder::new();
    for x in 0..9 {
        for y in 0..4 {
            gb = gb.add_piece(PT::O, Coord::new(x, y));
        }
    }
    let game = gb.build();
    assert_eq!(clear_potential(&game.board), 4);
}

#[test]
fn distance_penalty_doubles_above_four_and_is_linear_below() {
    assert_eq!(distance_from_4(0), 4);
    assert_eq!(distance_from_4(3), 1);
    assert_eq!(distance_from_4(4), 1);
    assert_eq!(distance_from_4(5), 2);
    assert_eq!(distance_from_4(9), 32);
}

#[test]
fn distance_uses_the_most_common_height() {
    // heights 0 everywhere on an empty board: penalty 4
    let game = GameBuilder::new().build();
    assert_eq!(distance_mean_from_4(&game.board), 4);

    // seven columns of height 6, three of height 0: penalty 2^2
    let mut gb = GameBuilder::new();
    for x in 0..7 {
        gb = gb.add_piece(PT::T, Coord::new(x, 6));
    }
    let game = gb.build();
    assert_eq!(distance_mean_from_4(&game.board), 4);
}

#[test]
fn heuristic_list_and_dispatch() {
    let hs = get_heuristics();
    assert_eq!(hs.len(), 6);
    let game = GameBuilder::new()
        .add_piece(PT::I, Coord::new(0, 1))
        .add_piece(PT::I, Coord::new(1, 0))
        .add_piece(PT::I, Coord::new(3, 3))
        .build();
    assert_eq!(Heuristic::HolesPresent.evaluate(&game.board), 4);
    assert_eq!(Heuristic::HighestBlock.evaluate(&game.board), 4);
    assert_eq!(Heuristic::Bumpyness.evaluate(&game.board), bumpyness(&game.board));
}

#[test]
fn most_frequent_takes_the_last_of_equal_counts() {
    assert_eq!(most_frequent(&vec![]), None);
    assert_eq!(most_frequent(&vec![(3, 2), (5, 4), (7, 1)]), Some(5));
    assert_eq!(most_frequent(&vec![(3, 4), (5, 4), (7, 1)]), Some(5));
}
