use mastermind::selector::{best_index, guess_quality, select_best, Strategy};
use mastermind::space::generate;

#[test]
fn quality_counts_what_the_worst_answer_eliminates() {
    let pool = generate(2, 2);
    assert_eq!(guess_quality(&pool, &[0, 0], 2), 2);
    assert_eq!(guess_quality(&pool, &[1, 0], 2), 2);
    let pool = generate(1, 3);
    assert_eq!(guess_quality(&pool, &[0], 3), 1);
    assert_eq!(guess_quality(&pool, &[2], 3), 1);
}

#[test]
fn quality_of_classic_openings() {
    let pool = generate(4, 6);
    assert_eq!(guess_quality(&pool, &[0, 0, 0, 0], 6), 1296 - 625);
    assert_eq!(guess_quality(&pool, &[0, 0, 1, 1], 6), 1296 - 256);
    assert_eq!(guess_quality(&pool, &[0, 1, 2, 3], 6), 1296 - 312);
}

#[test]
fn quality_on_an_empty_pool_is_zero() {
    let pool: Vec<Vec<u32>> = Vec::new();
    assert_eq!(guess_quality(&pool, &[0, 1], 2), 0);
}

#[test]
fn quality_of_the_only_row_is_zero() {
    let pool = vec![vec![3, 1, 2]];
    assert_eq!(guess_quality(&pool, &[3, 1, 2], 4), 0);
    assert_eq!(guess_quality(&pool, &[0, 0, 0], 4), 0);
}

#[test]
fn quality_of_a_guess_outside_the_pool() {
    let pool = vec![vec![0, 0], vec![1, 1]];
    assert_eq!(guess_quality(&pool, &[0, 1], 2), 0);
    assert_eq!(guess_quality(&pool, &[0, 0], 2), 1);
}

#[test]
fn ties_go_to_the_first_row() {
    let pool = generate(2, 2);
    assert_eq!(best_index(&pool, 2, Strategy::Sequential), 0);
    assert_eq!(best_index(&pool, 2, Strategy::Parallel), 0);
    assert_eq!(select_best(&pool, 2, Strategy::Sequential), &vec![0, 0]);
    assert_eq!(select_best(&pool, 2, Strategy::Parallel), &vec![0, 0]);
}

#[test]
fn a_later_row_wins_when_it_is_better() {
    let pool = vec![vec![0, 0], vec![0, 1], vec![1, 0]];
    assert_eq!(guess_quality(&pool, &[0, 0], 2), 1);
    assert_eq!(guess_quality(&pool, &[0, 1], 2), 2);
    assert_eq!(guess_quality(&pool, &[1, 0], 2), 2);
    assert_eq!(best_index(&pool, 2, Strategy::Sequential), 1);
    assert_eq!(best_index(&pool, 2, Strategy::Parallel), 1);
    assert_eq!(select_best(&pool, 2, Strategy::Parallel), &vec![0, 1]);
}

#[test]
fn the_last_row_can_be_best() {
    let pool = vec![vec![0, 0], vec![0, 0], vec![0, 0], vec![0, 1]];
    assert_eq!(guess_quality(&pool, &[0, 0], 2), 1);
    assert_eq!(guess_quality(&pool, &[0, 1], 2), 1);
    assert_eq!(best_index(&pool, 2, Strategy::Parallel), 0);
    let pool = vec![vec![2, 2], vec![2, 2], vec![0, 0], vec![1, 1], vec![0, 1]];
    let scores: Vec<usize> = pool.iter().map(|row| guess_quality(&pool, row, 3)).collect();
    assert_eq!(scores, vec![2, 2, 2, 2, 3]);
    assert_eq!(best_index(&pool, 3, Strategy::Sequential), 4);
    assert_eq!(best_index(&pool, 3, Strategy::Parallel), 4);
    assert_eq!(select_best(&pool, 3, Strategy::Parallel), &vec![0, 1]);
}

#[test]
fn single_row_is_its_own_best_guess() {
    let pool = vec![vec![4, 2]];
    assert_eq!(select_best(&pool, 5, Strategy::Sequential), &vec![4, 2]);
    assert_eq!(select_best(&pool, 5, Strategy::Parallel), &vec![4, 2]);
}

#[test]
fn classic_opening_is_two_pairs() {
    let pool = generate(4, 6);
    assert_eq!(best_index(&pool, 6, Strategy::Parallel), 7);
    assert_eq!(select_best(&pool, 6, Strategy::Parallel), &vec![1, 1, 0, 0]);
}

#[test]
fn strategies_agree() {
    for (row_size, value_count) in [(1usize, 1u32), (1, 5), (2, 3), (3, 3), (3, 4), (2, 6)] {
        let pool = generate(row_size, value_count);
        let sequential = best_index(&pool, value_count, Strategy::Sequential);
        let parallel = best_index(&pool, value_count, Strategy::Parallel);
        assert_eq!(sequential, parallel);
        let best = guess_quality(&pool, &pool[parallel], value_count);
        for (index, row) in pool.iter().enumerate() {
            let quality = guess_quality(&pool, row, value_count);
            assert!(quality <= best);
            if index < parallel {
                assert!(quality < best);
            }
        }
    }
}
