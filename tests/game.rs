use tetris_ai::entities::{Collision, Coord, Direction, PieceType, Rotation};
use tetris_ai::game::Game;
use tetris_ai::game_builder::GameBuilder;
use tetris_ai::piece::{get_blocks, piece_type_of, Piece};
use tetris_ai::scoring::Score;
use tetris_ai::srs::get_offset_table;

fn piece_at(t: PieceType, x: i32, y: i32) -> Piece {
    Piece { block_type: t, anchor_point: Coord::new(x, y), block_positions: get_blocks(t), rotation_idx: 0 }
}

fn sorted_cells(p: &Piece) -> Vec<(i32, i32)> {
    let mut v: Vec<(i32, i32)> = p.iter_blocks().iter().map(|c| (c.x, c.y)).collect();
    v.sort();
    v
}

#[test]
fn test_move_left_not_obstructed() {
    let mut game = Game::new();

    let positions_before = game.piece.iter_blocks();
    game.go_left();
    let positions_after = game.piece.iter_blocks();

    for (pos1, pos2) in positions_before.iter().zip(positions_after.iter()) {
        assert_ne!(pos1, pos2, "Position {pos1:?} should not be equal to {pos2:?}");
    }
}

#[test]
fn o_piece_moves_right_until_the_wall() {
    let mut game = GameBuilder::new().build();
    game.piece = piece_at(PieceType::O, 7, 0);
    assert_eq!(sorted_cells(&game.piece), vec![(7, 0), (7, 1), (8, 0), (8, 1)]);

    game.go_right();
    assert_eq!(game.piece.anchor_point.x, 8);

    game.go_right();
    assert_eq!(game.piece.anchor_point.x, 8);
    assert_eq!(game.get_collision_after_move(Direction::Right, &game.piece), Collision::RightBorder);
}

#[test]
fn move_left_at_column_zero_changes_nothing() {
    let mut game = GameBuilder::new().build();
    game.piece = piece_at(PieceType::T, 1, 5);
    let before = game.piece;
    game.go_left();
    assert_eq!(game.piece, before);
    assert_eq!(game.get_collision_after_move(Direction::Left, &game.piece), Collision::LeftBorder);
}

#[test]
fn locking_completes_and_clears_the_bottom_row() {
    let mut gb = GameBuilder::new();
    for x in 0..10 {
        if x != 4 && x != 5 {
            gb = gb.add_piece(PieceType::I, Coord::new(x, 0));
        }
    }
    let mut game = gb.build();
    game.piece = piece_at(PieceType::O, 4, 3);
    game.hard_drop();

    assert_eq!(game.score.cleared_rows, 1);
    assert_eq!(game.score.score, 100);
    assert_eq!(game.score.ones, 1);
    assert_eq!(game.score.dropped_pieces, 1);
    // the upper half of the square moved down into row 0
    assert_eq!(game.board.get(Coord::new(4, 0)), Some(PieceType::O));
    assert_eq!(game.board.get(Coord::new(5, 0)), Some(PieceType::O));
    assert_eq!(game.board.get(Coord::new(0, 0)), None);
    assert_eq!(game.board.get(Coord::new(4, 1)), None);
    for x in 0..10 {
        assert_eq!(game.board.get(Coord::new(x, 23)), None);
    }
}

#[test]
fn soft_drop_locks_when_blocked() {
    let mut game = GameBuilder::new().build();
    game.piece = piece_at(PieceType::O, 0, 0);
    let next = game.next_piece;
    game.go_down();
    assert_eq!(game.score.dropped_pieces, 1);
    assert_eq!(game.score.score, 0);
    assert_eq!(game.piece, next);
    assert_eq!(game.board.get(Coord::new(1, 1)), Some(PieceType::O));
}

#[test]
fn four_rotations_give_back_the_piece() {
    for t in [PieceType::I, PieceType::O, PieceType::T, PieceType::S, PieceType::Z, PieceType::J, PieceType::L] {
        for r in [Rotation::Clockwise, Rotation::Counterclockwise] {
            let mut p = Piece::new(t);
            let before = p;
            for _ in 0..4 {
                p.rotate(r);
            }
            assert_eq!(p, before);
        }
    }
}

#[test]
fn rotation_steps_the_index() {
    let mut p = Piece::new(PieceType::T);
    p.rotate(Rotation::Clockwise);
    assert_eq!(p.rotation_idx, 1);
    assert_eq!(p.block_positions[1], Coord::new(0, 1));
    p.rotate(Rotation::Counterclockwise);
    p.rotate(Rotation::Counterclockwise);
    assert_eq!(p.rotation_idx, 3);
}

#[test]
fn square_rotation_keeps_its_cells() {
    for r in [Rotation::Clockwise, Rotation::Counterclockwise] {
        let mut game = GameBuilder::new().build();
        game.piece = piece_at(PieceType::O, 0, 0);
        for _ in 0..4 {
            let before = sorted_cells(&game.piece);
            game.rotate(r);
            assert_eq!(sorted_cells(&game.piece), before);
        }
    }
}

#[test]
fn spawned_pieces_move_and_rotate_freely_on_an_empty_board() {
    for t in [PieceType::I, PieceType::O, PieceType::T, PieceType::S, PieceType::Z, PieceType::J, PieceType::L] {
        let mut game = GameBuilder::new().build();
        game.piece = Piece::new(t);
        for d in [Direction::Left, Direction::Right, Direction::Down] {
            assert_eq!(game.get_collision_after_move(d, &game.piece), Collision::Free);
        }
        game.rotate(Rotation::Clockwise);
        assert_eq!(game.piece.rotation_idx, 1);
    }
}

#[test]
fn i_piece_wall_kick_moves_away_from_the_wall() {
    let mut game = GameBuilder::new().build();
    let mut p = piece_at(PieceType::I, 0, 10);
    // upright I against the left wall; the turned bar needs a kick
    game.piece = p;
    game.rotate(Rotation::Clockwise);
    assert_eq!(game.piece.rotation_idx, 1);
    for c in game.piece.iter_blocks() {
        assert!(c.x >= 0 && c.x < 10);
    }
    p.rotate(Rotation::Clockwise);
    assert_eq!(game.piece.block_positions, p.block_positions);
    assert_ne!(game.piece.anchor_point, Coord::new(0, 10));
}

#[test]
fn a_boxed_in_piece_does_not_rotate() {
    let mut gb = GameBuilder::new();
    for x in 0..10 {
        for y in 0..8 {
            if x != 4 {
                gb = gb.add_piece(PieceType::Z, Coord::new(x, y));
            }
        }
    }
    let mut game = gb.build();
    game.piece = piece_at(PieceType::I, 4, 3);
    let before = game.piece;
    game.rotate(Rotation::Clockwise);
    assert_eq!(game.piece, before);
}

#[test]
fn loss_is_a_cell_in_row_twenty() {
    let game = GameBuilder::new().add_piece(PieceType::L, Coord::new(3, 20)).build();
    assert!(game.is_lost());
    let game = GameBuilder::new().add_piece(PieceType::L, Coord::new(3, 19)).build();
    assert!(!game.is_lost());
}

#[test]
fn scoring_table() {
    let mut s = Score::default();
    s.on_lines_clear(4);
    assert_eq!((s.score, s.fours, s.cleared_rows), (800, 1, 4));
    s.on_lines_clear(3);
    assert_eq!((s.score, s.threes), (1300, 1));
    s.on_lines_clear(2);
    assert_eq!((s.score, s.twos), (1600, 1));
    s.on_lines_clear(0);
    assert_eq!(s.score, 1600);
    s.on_drop();
    assert_eq!(s.dropped_pieces, 1);
}

#[test]
fn offset_tables() {
    assert_eq!(get_offset_table(PieceType::I).len(), 5);
    assert_eq!(get_offset_table(PieceType::O).len(), 1);
    assert_eq!(get_offset_table(PieceType::T).len(), 5);
    assert_eq!(get_offset_table(PieceType::I)[4][1], Coord::new(0, -2));
}

#[test]
fn coord_arithmetic() {
    let a = Coord::new(3, -2);
    let b = Coord::new(1, 5);
    assert_eq!(a.add(b), Coord::new(4, 3));
    assert_eq!(a.sub(b), Coord::new(2, -7));
    assert_eq!(Direction::Down.delta(), Coord::new(0, -1));
}

#[test]
fn random_pieces_vary() {
    let mut kinds: Vec<PieceType> = Vec::new();
    for _ in 0..200 {
        let p = Piece::random();
        assert_eq!(p.anchor_point, Coord::new(4, 21));
        assert_eq!(p.rotation_idx, 0);
        if !kinds.contains(&p.block_type) {
            kinds.push(p.block_type);
        }
    }
    assert!(kinds.len() >= 2);
}

#[test]
fn loss_is_any_cell_above_the_visible_field() {
    let game = GameBuilder::new().add_piece(PieceType::I, Coord::new(0, 22)).build();
    assert!(game.is_lost());
    let game = GameBuilder::new().add_piece(PieceType::I, Coord::new(9, 23)).build();
    assert!(game.is_lost());
}

#[test]
fn piece_numbering() {
    let kinds: Vec<PieceType> = (0..7).map(piece_type_of).collect();
    assert_eq!(
        kinds,
        vec![PieceType::I, PieceType::O, PieceType::T, PieceType::S, PieceType::Z, PieceType::J, PieceType::L]
    );
}

#[test]
fn queued_pieces_are_fresh_spawns() {
    let mut game = GameBuilder::new().build();
    game.hard_drop();
    assert_eq!(game.next_piece, Piece::new(game.next_piece.block_type));
}

#[test]
fn four_turns_on_an_empty_board_restore_the_piece() {
    for t in [PieceType::I, PieceType::O, PieceType::T, PieceType::S, PieceType::Z, PieceType::J, PieceType::L] {
        for r in [Rotation::Clockwise, Rotation::Counterclockwise] {
            let mut game = GameBuilder::new().build();
            game.piece = piece_at(t, 5, 10);
            let before = game.piece;
            for _ in 0..4 {
                game.rotate(r);
            }
            assert_eq!(game.piece, before);
        }
    }
}

#[test]
fn visible_rows_run_top_down() {
    let game = GameBuilder::new()
        .add_piece(PieceType::J, Coord::new(2, 19))
        .add_piece(PieceType::S, Coord::new(7, 0))
        .add_piece(PieceType::L, Coord::new(0, 21))
        .build();
    let rows = game.board.visible_rows();
    assert_eq!(rows.len(), 20);
    assert_eq!(rows[0][2], Some(PieceType::J));
    assert_eq!(rows[19][7], Some(PieceType::S));
    assert_eq!(rows.iter().flatten().filter(|c| c.is_some()).count(), 2);
}
