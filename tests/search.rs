use tetris_ai::agent::{
    first_min_index, keep_playing, lower_piece_before_branching, Agent, WeightCountMismatch,
};
use tetris_ai::board::Board;
use tetris_ai::branching_modes::BranchingMode;
use tetris_ai::entities::{Coord, PieceType};
use tetris_ai::game::Game;
use tetris_ai::game_builder::GameBuilder;
use tetris_ai::heuristics::{get_heuristics, highest_block, Heuristic};
use tetris_ai::piece::Piece;
use tetris_ai::search::{apply, same_board, Action};

fn fresh(t: PieceType) -> Game {
    let mut game = GameBuilder::new().build();
    game.piece = Piece::new(t);
    game.next_piece = Piece::new(PieceType::O);
    game
}

fn boards(games: &[Game]) -> Vec<Board> {
    games.iter().map(|g| g.board).collect()
}

#[test]
fn search_on_an_empty_board_is_non_empty_distinct_and_stable() {
    for t in [PieceType::I, PieceType::O, PieceType::T, PieceType::S, PieceType::Z, PieceType::J, PieceType::L] {
        let first = Agent::<f32>::get_all_possible_next_game_states(fresh(t));
        let second = Agent::<f32>::get_all_possible_next_game_states(fresh(t));
        assert!(!first.is_empty());
        assert_eq!(first.len(), second.len());
        let b1 = boards(&first);
        let b2 = boards(&second);
        for b in &b1 {
            assert!(b2.contains(b));
        }
        for i in 0..first.len() {
            assert_eq!(first[i].score.dropped_pieces, 1);
            assert!(!first[i].is_lost());
            for j in 0..i {
                assert!(!same_board(&first[i].board, &first[j].board));
            }
        }
    }
}

#[test]
fn square_has_nine_landing_places_on_an_empty_board() {
    let states = Agent::<f32>::get_all_possible_next_game_states(fresh(PieceType::O));
    assert_eq!(states.len(), 9);
}

#[test]
fn upright_and_flat_bars_on_an_empty_board() {
    // ten upright columns and seven flat positions
    let states = Agent::<f32>::get_all_possible_next_game_states(fresh(PieceType::I));
    assert_eq!(states.len(), 17);
}

#[test]
fn outcomes_hold_the_queued_piece() {
    let states = Agent::<f32>::get_all_possible_next_game_states(fresh(PieceType::T));
    for s in &states {
        assert_eq!(s.piece.block_type, PieceType::O);
        assert_eq!(s.next_piece.block_type, PieceType::O);
    }
}

#[test]
fn lowering_stops_above_the_stack() {
    let mut game = GameBuilder::new().add_piece(PieceType::S, Coord::new(2, 5)).build();
    game.piece = Piece::new(PieceType::T);
    lower_piece_before_branching(&mut game);
    let lowest = game.piece.iter_blocks().iter().map(|c| c.y).min().unwrap();
    assert_eq!(lowest as u64, highest_block(&game.board));
    assert_eq!(game.score.dropped_pieces, 0);
}

#[test]
fn apply_hard_drop_locks_and_keeps_the_queue() {
    let mut game = fresh(PieceType::L);
    let next = game.next_piece;
    apply(&mut game, Action::HardDrop);
    assert_eq!(game.score.dropped_pieces, 1);
    assert_eq!(game.piece, next);
    assert_eq!(game.next_piece, next);
}

#[test]
fn first_min_index_takes_the_first_of_equal_keys() {
    assert_eq!(first_min_index(&vec![]), None);
    assert_eq!(first_min_index(&vec![5, 2, 7, 2]), Some(1));
    assert_eq!(first_min_index(&vec![-3]), Some(0));
}

#[test]
fn pick_best_and_pick_best_path() {
    let a = fresh(PieceType::I);
    let b = fresh(PieceType::T);
    let c = fresh(PieceType::S);
    let best = Agent::<f32>::pick_best(vec![a, b, c], &vec![4, 1, 1]);
    assert_eq!(best, Some(b));
    assert_eq!(Agent::<f32>::pick_best(vec![], &vec![]), None);

    let path = Agent::<f32>::pick_best_path(vec![a, b, c], &vec![vec![9, 3], vec![], vec![7, 3, 1]]);
    assert_eq!(path, Some(c));
    let none = Agent::<f32>::pick_best_path(vec![a], &vec![vec![]]);
    assert_eq!(none, None);
}

#[test]
fn from_weights_checks_the_count() {
    let hs = get_heuristics();
    let err = Agent::from_weights(vec![1.0f32, 2.0], &hs);
    assert_eq!(err.err(), Some(WeightCountMismatch { passed: 2, expected: 6 }));
    let ok = Agent::from_weights(vec![0.5f32; 6], &hs).ok().unwrap();
    assert_eq!(ok.weights.len(), 6);
    assert_eq!(ok.fitness(), 0);
    let values = ok.heuristic_values(&ok.game.board);
    assert_eq!(values.len(), 6);
    assert_eq!(values[3], 0);
}

#[test]
fn heuristic_values_follow_the_list() {
    let hs = vec![Heuristic::HighestBlock, Heuristic::HolesPresent];
    let agent = Agent::from_weights(vec![1i64, 1], &hs).ok().unwrap();
    let board = GameBuilder::new().add_piece(PieceType::J, Coord::new(0, 2)).build().board;
    assert_eq!(agent.heuristic_values(&board), vec![3, 2]);
}

#[test]
fn branching_mode_toggles() {
    let mut m = BranchingMode::default();
    assert_eq!(m, BranchingMode::Current);
    m.toggle();
    assert_eq!(m, BranchingMode::CurrentAndNext);
    m.toggle();
    assert_eq!(m, BranchingMode::Current);
}

#[test]
fn play_outs_stop_at_the_limit_a_loss_or_no_move() {
    assert!(keep_playing(3, Some(5), true, false));
    assert!(!keep_playing(5, Some(5), true, false));
    assert!(keep_playing(5, None, true, false));
    assert!(!keep_playing(1, None, false, false));
    assert!(!keep_playing(1, None, true, true));
}
