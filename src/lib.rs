//! A falling-block puzzle engine with a move-space search, board heuristics
//! and the decision logic of a genetic optimiser for heuristic weights.
//! Every executable function here carries a contract checked by Verus.

pub mod agent;
pub mod board;
pub mod branching_modes;
pub mod entities;
pub mod ga;
pub mod game;
pub mod game_builder;
pub mod heuristics;
pub mod piece;
pub mod scoring;
pub mod search;
pub mod srs;
