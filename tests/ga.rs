use tetris_ai::ga::{select_survivors, selection_weights, Config, ConfigError, TrainingProgress};
use tetris_ai::heuristics::get_heuristics;

fn config(n: usize) -> Config {
    Config {
        n_entities: n,
        max_drops: Some(10),
        max_populations: Some(3),
        max_non_progress_populations: None,
        heuristics_used: get_heuristics(),
    }
}

#[test]
fn odd_entity_count_is_refused() {
    assert_eq!(config(1).validate(), Err(ConfigError::OddEntities));
}

#[test]
fn zero_entities_and_no_heuristics_are_refused() {
    assert_eq!(config(0).validate(), Err(ConfigError::NoEntities));
    let mut c = config(4);
    c.heuristics_used.clear();
    assert_eq!(c.validate(), Err(ConfigError::NoHeuristics));
    assert_eq!(config(4).validate(), Ok(()));
}

#[test]
fn selection_weights_shift_by_the_minimum() {
    assert_eq!(selection_weights(&vec![300, 100, 700]), vec![201, 1, 601]);
    assert_eq!(selection_weights(&vec![0, 0]), vec![1, 1]);
}

#[test]
fn survivors_are_valid_indices() {
    let s = select_survivors(&vec![0, 500, 100, 0], 8);
    assert_eq!(s.len(), 8);
    assert!(s.iter().all(|&i| i < 4));
}

#[test]
fn best_fitness_never_decreases() {
    let mut p = TrainingProgress::new(Some(10), Some(1));
    assert!(p.should_continue());
    assert!(p.record_generation(100));
    assert!(!p.record_generation(50));
    assert_eq!(p.best_fitness, Some(100));
    assert_eq!(p.non_progress, 1);
    assert!(p.should_continue());
    assert!(!p.record_generation(100));
    assert_eq!(p.best_fitness, Some(100));
    assert!(!p.should_continue());
    assert!(p.record_generation(120));
    assert_eq!(p.best_fitness, Some(120));
    assert_eq!(p.non_progress, 0);
    assert_eq!(p.generation, 4);
}

#[test]
fn generation_limit_stops_training() {
    let mut p = TrainingProgress::new(Some(2), None);
    p.record_generation(1);
    assert!(p.should_continue());
    p.record_generation(2);
    assert!(!p.should_continue());
}

#[test]
fn selection_favours_the_fitter() {
    let s = select_survivors(&vec![0, 1_000_000], 20);
    let fitter = s.iter().filter(|&&i| i == 1).count();
    assert!(fitter >= 15);
}
