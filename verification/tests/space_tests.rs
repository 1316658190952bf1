use mastermind::space::{checked_space_size, generate};

#[test]
fn two_by_two_in_counting_order() {
    assert_eq!(
        generate(2, 2),
        vec![vec![0, 0], vec![1, 0], vec![0, 1], vec![1, 1]]
    );
}

#[test]
fn one_position_lists_the_symbols() {
    assert_eq!(generate(1, 3), vec![vec![0], vec![1], vec![2]]);
}

#[test]
fn one_symbol_gives_one_row() {
    assert_eq!(generate(5, 1), vec![vec![0, 0, 0, 0, 0]]);
    assert_eq!(generate(1, 1), vec![vec![0]]);
}

#[test]
fn first_position_changes_fastest() {
    let pool = generate(3, 3);
    assert_eq!(pool.len(), 27);
    assert_eq!(pool[0], vec![0, 0, 0]);
    assert_eq!(pool[1], vec![1, 0, 0]);
    assert_eq!(pool[2], vec![2, 0, 0]);
    assert_eq!(pool[3], vec![0, 1, 0]);
    assert_eq!(pool[9], vec![0, 0, 1]);
    assert_eq!(pool[26], vec![2, 2, 2]);
}

#[test]
fn each_row_spells_its_index() {
    let pool = generate(4, 5);
    assert_eq!(pool.len(), 625);
    for (index, row) in pool.iter().enumerate() {
        assert_eq!(row.len(), 4);
        let mut rest = index;
        for &symbol in row {
            assert_eq!(symbol as usize, rest % 5);
            rest /= 5;
        }
        assert_eq!(rest, 0);
    }
}

#[test]
fn classic_game_has_1296_distinct_rows_in_range() {
    let pool = generate(4, 6);
    assert_eq!(pool.len(), 1296);
    for row in &pool {
        assert_eq!(row.len(), 4);
        assert!(row.iter().all(|&symbol| symbol < 6));
    }
    let mut sorted = pool.clone();
    sorted.sort();
    sorted.dedup();
    assert_eq!(sorted.len(), 1296);
}

#[test]
fn every_row_of_the_game_is_generated() {
    let pool = generate(3, 2);
    assert_eq!(pool.len(), 8);
    for a in 0..2u32 {
        for b in 0..2u32 {
            for c in 0..2u32 {
                assert!(pool.contains(&vec![a, b, c]));
            }
        }
    }
}

#[test]
fn space_size_within_the_limit() {
    assert_eq!(checked_space_size(4, 6, 2000), Some(1296));
    assert_eq!(checked_space_size(4, 6, 1296), Some(1296));
    assert_eq!(checked_space_size(1, 3, 3), Some(3));
    assert_eq!(checked_space_size(10, 2, usize::MAX), Some(1024));
    assert_eq!(checked_space_size(1_000_000, 1, 1), Some(1));
}

#[test]
fn space_size_above_the_limit() {
    assert_eq!(checked_space_size(4, 6, 1295), None);
    assert_eq!(checked_space_size(1, 3, 2), None);
    assert_eq!(checked_space_size(200, 2, usize::MAX), None);
    assert_eq!(checked_space_size(3, u32::MAX, usize::MAX / 2), None);
    assert_eq!(checked_space_size(7, 1, 0), None);
}

#[test]
fn space_size_of_degenerate_games() {
    assert_eq!(checked_space_size(0, 5, 10), Some(1));
    assert_eq!(checked_space_size(0, 0, 1), Some(1));
    assert_eq!(checked_space_size(0, 0, 0), None);
    assert_eq!(checked_space_size(3, 0, 10), Some(0));
    assert_eq!(checked_space_size(3, 0, 0), Some(0));
}
