use mastermind::feedback::score;
use mastermind::solver::{
    apply_feedback, initialize, next_guess, ConfigurationError, SolverError, MAX_POOL_CELLS,
};
use mastermind::space::generate;

#[test]
fn classic_game_from_start_to_full_match() {
    let (pool, guess) = initialize(4, 6).unwrap();
    assert_eq!(pool.len(), 1296);
    assert_eq!(pool, generate(4, 6));
    assert_eq!(guess, vec![1, 1, 0, 0]);
    assert_eq!(next_guess(&pool, 6), Ok(guess.clone()));
    let (_, again) = initialize(4, 6).unwrap();
    assert_eq!(again, guess);
    let left = apply_feedback(&pool, &guess, 4, 0, 6).unwrap();
    assert_eq!(left, vec![guess]);
}

#[test]
fn small_game_pool_and_scores() {
    let (pool, guess) = initialize(2, 2).unwrap();
    let mut sorted = pool.clone();
    sorted.sort();
    assert_eq!(
        sorted,
        vec![vec![0, 0], vec![0, 1], vec![1, 0], vec![1, 1]]
    );
    assert_eq!(guess, vec![0, 0]);
    assert_eq!(score(&[0, 1], &[1, 0], 2), (0, 2));
    assert_eq!(score(&[0, 0], &[1, 1], 2), (0, 0));
    assert_eq!(score(&[0, 1], &[0, 1], 2), (2, 0));
}

#[test]
fn too_many_pegs_are_refused_and_the_pool_stays() {
    let (pool, guess) = initialize(4, 6).unwrap();
    let before = pool.clone();
    assert_eq!(
        apply_feedback(&pool, &guess, 5, 0, 6),
        Err(SolverError::InvalidFeedback)
    );
    assert_eq!(
        apply_feedback(&pool, &guess, 3, 2, 6),
        Err(SolverError::InvalidFeedback)
    );
    assert_eq!(
        apply_feedback(&pool, &guess, 0, 5, 6),
        Err(SolverError::InvalidFeedback)
    );
    assert_eq!(
        apply_feedback(&pool, &guess, u32::MAX, u32::MAX, 6),
        Err(SolverError::InvalidFeedback)
    );
    assert_eq!(pool, before);
}

fn rounds_to_solve(row_size: usize, value_count: u32, secret: &[u32]) -> usize {
    let (mut pool, mut guess) = initialize(row_size, value_count).unwrap();
    let mut rounds = 0;
    while pool.len() > 1 {
        let (black, white) = score(&guess, secret, value_count);
        pool = apply_feedback(&pool, &guess, black, white, value_count).unwrap();
        assert!(pool.iter().any(|row| row == secret));
        guess = next_guess(&pool, value_count).unwrap();
        rounds += 1;
        assert!(rounds <= 20);
    }
    assert_eq!(pool, vec![secret.to_vec()]);
    assert_eq!(guess, secret);
    rounds
}

#[test]
fn one_position_three_symbols_is_solved_in_two_rounds() {
    for secret in 0..3u32 {
        assert!(rounds_to_solve(1, 3, &[secret]) <= 2);
    }
    assert_eq!(rounds_to_solve(1, 3, &[0]), 1);
    assert_eq!(rounds_to_solve(1, 3, &[1]), 2);
    assert_eq!(rounds_to_solve(1, 3, &[2]), 2);
}

#[test]
fn every_secret_of_a_small_game_is_found() {
    for secret in generate(3, 3) {
        assert!(rounds_to_solve(3, 3, &secret) <= 6);
    }
}

#[test]
fn classic_secrets_are_found() {
    for secret in [[0, 0, 0, 0], [1, 1, 0, 0], [5, 4, 3, 2], [2, 5, 2, 5], [0, 1, 2, 3]] {
        assert!(rounds_to_solve(4, 6, &secret) <= 8);
    }
}

#[test]
fn game_with_one_row_is_solved_at_once() {
    let (pool, guess) = initialize(3, 1).unwrap();
    assert_eq!(pool, vec![vec![0, 0, 0]]);
    assert_eq!(guess, vec![0, 0, 0]);
    assert_eq!(rounds_to_solve(3, 1, &[0, 0, 0]), 0);
}

#[test]
fn zero_counts_are_refused() {
    assert_eq!(
        initialize(0, 6),
        Err(SolverError::Configuration(ConfigurationError::ZeroRowSize))
    );
    assert_eq!(
        initialize(4, 0),
        Err(SolverError::Configuration(ConfigurationError::ZeroValueCount))
    );
    assert_eq!(
        initialize(0, 0),
        Err(SolverError::Configuration(ConfigurationError::ZeroRowSize))
    );
}

#[test]
fn too_large_a_space_is_refused() {
    let too_large = Err(SolverError::Configuration(ConfigurationError::SpaceTooLarge));
    assert_eq!(initialize(30, 6), too_large);
    assert_eq!(initialize(usize::MAX, 2), too_large);
    assert_eq!(initialize(usize::MAX, 1), too_large);
    assert_eq!(initialize(MAX_POOL_CELLS + 1, 1), too_large);
    assert_eq!(initialize(1, MAX_POOL_CELLS as u32 + 1), too_large);
    assert_eq!(initialize(2, 1024), too_large);
    assert_eq!(initialize(8, 5), too_large);
}

#[test]
fn a_long_row_of_one_symbol_is_accepted() {
    let (pool, guess) = initialize(1000, 1).unwrap();
    assert_eq!(pool, vec![vec![0; 1000]]);
    assert_eq!(guess, vec![0; 1000]);
}

#[test]
fn answer_that_fits_no_candidate_is_inconsistent() {
    let pool = generate(2, 2);
    assert_eq!(
        apply_feedback(&pool, &[0, 0], 1, 1, 2),
        Err(SolverError::Inconsistent)
    );
    let left = apply_feedback(&pool, &[0, 0], 0, 0, 2).unwrap();
    assert_eq!(left, vec![vec![1, 1]]);
    assert_eq!(
        apply_feedback(&left, &[1, 0], 2, 0, 2),
        Err(SolverError::Inconsistent)
    );
    let empty: Vec<Vec<u32>> = Vec::new();
    assert_eq!(
        apply_feedback(&empty, &[0, 0], 1, 0, 2),
        Err(SolverError::Inconsistent)
    );
}

#[test]
fn apply_feedback_returns_the_consistent_rows() {
    let pool = generate(2, 2);
    let before = pool.clone();
    assert_eq!(
        apply_feedback(&pool, &[0, 0], 1, 0, 2),
        Ok(vec![vec![1, 0], vec![0, 1]])
    );
    assert_eq!(apply_feedback(&pool, &[0, 1], 0, 2, 2), Ok(vec![vec![1, 0]]));
    assert_eq!(pool, before);
}

#[test]
fn honest_answers_never_empty_the_pool() {
    let pool = generate(2, 4);
    for guess in &pool {
        for secret in &pool {
            let (black, white) = score(guess, secret, 4);
            let left = apply_feedback(&pool, guess, black, white, 4).unwrap();
            assert!(left.contains(secret));
            assert!(left.len() <= pool.len());
        }
    }
}

#[test]
fn empty_pool_is_exhausted() {
    let pool: Vec<Vec<u32>> = Vec::new();
    assert_eq!(next_guess(&pool, 6), Err(SolverError::Exhausted));
}

#[test]
fn single_candidate_is_the_next_guess() {
    assert_eq!(next_guess(&vec![vec![3, 3, 1]], 4), Ok(vec![3, 3, 1]));
}

#[test]
fn next_guess_is_the_first_best_candidate() {
    let pool = vec![vec![0, 0], vec![0, 1], vec![1, 0]];
    assert_eq!(next_guess(&pool, 2), Ok(vec![0, 1]));
    assert_eq!(next_guess(&generate(2, 2), 2), Ok(vec![0, 0]));
}

#[test]
fn largest_accepted_row_of_one_symbol() {
    let (pool, guess) = initialize(MAX_POOL_CELLS, 1).unwrap();
    assert_eq!(pool.len(), 1);
    assert_eq!(guess.len(), MAX_POOL_CELLS);
    assert!(guess.iter().all(|&symbol| symbol == 0));
    assert_eq!(pool[0], guess);
}
