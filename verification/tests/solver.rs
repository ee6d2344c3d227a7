use sudoku::board::{Sudoku, SudokuError};
use sudoku::grid::peer;
use sudoku::text::render;

fn classic() -> Vec<u8> {
    vec![
        3, 7, 0, 8, 6, 0, 0, 1, 2, 6, 0, 0, 9, 0, 0, 8, 0, 7, 0, 0, 0, 0, 0, 0, 0, 0, 3, 0, 8,
        3, 7, 2, 0, 4, 5, 0, 5, 4, 0, 0, 0, 6, 1, 0, 0, 2, 6, 0, 0, 0, 0, 0, 0, 0, 0, 0, 0, 2,
        0, 9, 0, 8, 0, 1, 0, 0, 0, 8, 0, 0, 0, 5, 8, 2, 6, 5, 4, 0, 3, 9, 0,
    ]
}

fn impossible() -> Vec<u8> {
    vec![
        0, 0, 3, 0, 0, 6, 0, 0, 0, 0, 5, 0, 1, 0, 0, 0, 0, 0, 6, 0, 0, 0, 2, 3, 4, 0, 0, 0, 7,
        0, 0, 0, 0, 0, 5, 0, 0, 0, 0, 9, 0, 0, 0, 0, 7, 0, 6, 4, 0, 3, 0, 8, 0, 0, 0, 4, 0, 0,
        0, 0, 0, 9, 1, 0, 0, 2, 0, 0, 8, 3, 0, 0, 0, 0, 0, 0, 0, 0, 0, 0, 0,
    ]
}

fn sorted(list: &Vec<u8>) -> Vec<u8> {
    let mut copy = list.clone();
    copy.sort();
    copy
}

fn peers_of(index: usize) -> Vec<usize> {
    let mut cells: Vec<usize> = (0..20).map(|n| peer(index, n)).collect();
    cells.sort();
    cells
}

fn expected_candidates(values: &Vec<u8>, index: usize) -> Vec<u8> {
    (1..=9u8)
        .filter(|v| peers_of(index).iter().all(|p| values[*p] != *v))
        .collect()
}

fn assert_units_are_permutations(values: &Vec<u8>) {
    let digits: Vec<u8> = (1..=9).collect();
    for u in 0..9 {
        let row: Vec<u8> = (0..9).map(|k| values[u * 9 + k]).collect();
        let column: Vec<u8> = (0..9).map(|k| values[k * 9 + u]).collect();
        let square: Vec<u8> = (0..9)
            .map(|k| values[((u / 3) * 3 + k / 3) * 9 + (u % 3) * 3 + k % 3])
            .collect();
        assert_eq!(sorted(&row), digits);
        assert_eq!(sorted(&column), digits);
        assert_eq!(sorted(&square), digits);
    }
}

fn assert_candidates_consistent(sudoku: &Sudoku) {
    let values = sudoku.values().clone();
    for index in 0..81 {
        assert_eq!(
            sorted(sudoku.possible_values(index)),
            expected_candidates(&values, index)
        );
    }
}

#[test]
fn test_solve_full() {
    let values = classic();

    let mut sudoku = Sudoku::from_values(values).unwrap();

    assert!(sudoku.solve());

    println!("{}", String::from_utf8_lossy(&render(sudoku.values())));
}

#[test]
fn test_solve_impossible() {
    let values = impossible();

    let mut sudoku = Sudoku::from_values(values).unwrap();

    assert!(!sudoku.solve());

    println!("{}", String::from_utf8_lossy(&render(sudoku.values())));
}

#[test]
fn test_solve_empty() {
    let values = vec![0; 81];

    let mut sudoku = Sudoku::from_values(values).unwrap();

    assert!(sudoku.solve());

    println!("{}", String::from_utf8_lossy(&render(sudoku.values())));
}

#[test]
fn classic_puzzle_first_row() {
    let mut sudoku = Sudoku::from_values(classic()).unwrap();
    assert!(sudoku.solve());
    assert_eq!(sudoku.values()[0..9], [3, 7, 9, 8, 6, 4, 5, 1, 2]);
}

#[test]
fn solved_grid_is_legal() {
    let mut sudoku = Sudoku::from_values(classic()).unwrap();
    assert!(sudoku.solve());
    assert_units_are_permutations(sudoku.values());
}

#[test]
fn solved_grid_keeps_the_clues() {
    let clues = classic();
    let mut sudoku = Sudoku::from_values(clues.clone()).unwrap();
    assert!(sudoku.solve());
    for index in 0..81 {
        assert!((1..=9).contains(&sudoku.values()[index]));
        if clues[index] != 0 {
            assert_eq!(sudoku.values()[index], clues[index]);
        }
    }
}

#[test]
fn blank_board_solves_to_a_legal_grid() {
    let mut sudoku = Sudoku::from_values(vec![0; 81]).unwrap();
    assert!(sudoku.solve());
    assert_eq!(sudoku.values().len(), 81);
    assert_units_are_permutations(sudoku.values());
}

#[test]
fn blank_board_first_row_is_ascending() {
    let mut sudoku = Sudoku::from_values(vec![0; 81]).unwrap();
    assert!(sudoku.solve());
    assert_eq!(sudoku.values()[0..9], [1, 2, 3, 4, 5, 6, 7, 8, 9]);
}

#[test]
fn failed_search_restores_the_board() {
    let mut sudoku = Sudoku::from_values(impossible()).unwrap();
    assert!(!sudoku.solve());
    assert_eq!(*sudoku.values(), impossible());
    assert_candidates_consistent(&sudoku);
}

#[test]
fn forced_clash_is_unsolvable() {
    let mut clues = vec![0u8; 81];
    // Row 0 holds 1 to 7 in its last seven cells, and an 8 stands below each of
    // the first two: both can only take 9.
    for k in 0..7 {
        clues[2 + k] = (k + 1) as u8;
    }
    clues[27] = 8;
    clues[55] = 8;
    let mut sudoku = Sudoku::from_values(clues.clone()).unwrap();
    assert_eq!(sorted(sudoku.possible_values(0)), vec![9]);
    assert_eq!(sorted(sudoku.possible_values(1)), vec![9]);
    assert!(!sudoku.solve());
    assert_eq!(*sudoku.values(), clues);
}

#[test]
fn solving_twice_gives_the_same_grid() {
    let mut first = Sudoku::from_values(classic()).unwrap();
    let mut second = Sudoku::from_values(classic()).unwrap();
    assert!(first.solve());
    assert!(second.solve());
    assert_eq!(first.values(), second.values());
    let grid = first.values().clone();
    assert!(first.solve());
    assert_eq!(*first.values(), grid);
}

#[test]
fn outcome_does_not_depend_on_list_order() {
    // The same values reached by another sequence of commits and retracts.
    let mut direct = Sudoku::from_values(classic()).unwrap();
    let mut detour = Sudoku::from_values(classic()).unwrap();
    detour.commit(2, 9);
    detour.commit(5, 4);
    detour.retract(2);
    detour.retract(5);
    assert_eq!(detour.values(), direct.values());
    assert!(direct.solve());
    assert!(detour.solve());
    assert_eq!(direct.values(), detour.values());
}

#[test]
fn duplicate_in_a_row_is_contradictory() {
    let mut values = vec![0; 81];
    values[0] = 5;
    values[8] = 5;
    assert_eq!(
        Sudoku::from_values(values).err(),
        Some(SudokuError::ContradictoryInput)
    );
}

#[test]
fn duplicate_in_a_column_is_contradictory() {
    let mut values = vec![0; 81];
    values[4] = 7;
    values[76] = 7;
    assert_eq!(
        Sudoku::from_values(values).err(),
        Some(SudokuError::ContradictoryInput)
    );
}

#[test]
fn duplicate_in_a_box_is_contradictory() {
    let mut values = vec![0; 81];
    values[30] = 2;
    values[50] = 2;
    assert_eq!(
        Sudoku::from_values(values).err(),
        Some(SudokuError::ContradictoryInput)
    );
}

#[test]
fn wrong_length_is_invalid() {
    assert_eq!(
        Sudoku::from_values(vec![0; 80]).err(),
        Some(SudokuError::InvalidInput)
    );
    assert_eq!(
        Sudoku::from_values(vec![0; 82]).err(),
        Some(SudokuError::InvalidInput)
    );
    assert_eq!(
        Sudoku::from_values(Vec::new()).err(),
        Some(SudokuError::InvalidInput)
    );
}

#[test]
fn digit_out_of_range_is_invalid() {
    let mut values = vec![0; 81];
    values[40] = 10;
    assert_eq!(
        Sudoku::from_values(values).err(),
        Some(SudokuError::InvalidInput)
    );
}

#[test]
fn out_of_range_wins_over_contradiction() {
    let mut values = vec![0; 81];
    values[0] = 5;
    values[1] = 5;
    values[80] = 200;
    assert_eq!(
        Sudoku::from_values(values).err(),
        Some(SudokuError::InvalidInput)
    );
}

#[test]
fn construction_keeps_the_values() {
    let sudoku = Sudoku::from_values(classic()).unwrap();
    assert_eq!(*sudoku.values(), classic());
    assert_candidates_consistent(&sudoku);
}

#[test]
fn peers_of_the_first_cell() {
    let listed: Vec<usize> = (0..20).map(|n| peer(0, n)).collect();
    assert_eq!(
        listed,
        vec![1, 2, 9, 10, 11, 18, 19, 20, 3, 4, 5, 6, 7, 8, 27, 36, 45, 54, 63, 72]
    );
}

#[test]
fn peers_of_the_centre_cell() {
    let listed: Vec<usize> = (0..20).map(|n| peer(40, n)).collect();
    assert_eq!(
        listed,
        vec![30, 31, 32, 39, 41, 48, 49, 50, 36, 37, 38, 42, 43, 44, 4, 13, 22, 58, 67, 76]
    );
}

#[test]
fn every_cell_has_twenty_distinct_peers() {
    for index in 0..81 {
        let mut cells = peers_of(index);
        cells.dedup();
        assert_eq!(cells.len(), 20);
        for cell in cells {
            assert!(cell < 81);
            assert_ne!(cell, index);
            let same_row = cell / 9 == index / 9;
            let same_column = cell % 9 == index % 9;
            let same_box = cell / 27 == index / 27 && (cell % 9) / 3 == (index % 9) / 3;
            assert!(same_row || same_column || same_box);
        }
    }
}

#[test]
fn is_possible_looks_at_peers_only() {
    let sudoku = Sudoku::from_values(classic()).unwrap();
    // Cell 2 is blank; its row holds 3, 7, 8, 6, 1, 2, its column 3 and 8, its box 3, 7, 6.
    assert!(!sudoku.is_possible(2, 3));
    assert!(!sudoku.is_possible(2, 8));
    assert!(!sudoku.is_possible(2, 6));
    assert!(sudoku.is_possible(2, 9));
    assert!(sudoku.is_possible(2, 4));
    // Cell 0 holds 3 and no peer of it does.
    assert!(sudoku.is_possible(0, 3));
    assert!(!sudoku.is_possible(0, 7));
}

#[test]
fn is_candidate_agrees_with_the_list() {
    let sudoku = Sudoku::from_values(classic()).unwrap();
    assert_eq!(sorted(sudoku.possible_values(2)), vec![4, 5, 9]);
    assert!(sudoku.is_candidate(2, 9));
    assert!(sudoku.is_candidate(2, 4));
    assert!(!sudoku.is_candidate(2, 3));
    assert!(!sudoku.is_candidate(2, 0));
    assert!(!sudoku.is_candidate(2, 10));
}

#[test]
fn commit_strikes_the_value_from_peers_only() {
    let mut sudoku = Sudoku::from_values(vec![0; 81]).unwrap();
    sudoku.commit(40, 5);
    assert_eq!(sudoku.values()[40], 5);
    let peers = peers_of(40);
    for index in 0..81 {
        if peers.contains(&index) {
            assert_eq!(sorted(sudoku.possible_values(index)), vec![1, 2, 3, 4, 6, 7, 8, 9]);
        } else {
            assert_eq!(sorted(sudoku.possible_values(index)), vec![1, 2, 3, 4, 5, 6, 7, 8, 9]);
        }
    }
    assert_candidates_consistent(&sudoku);
}

#[test]
fn retract_reinstates_only_where_still_legal() {
    let mut sudoku = Sudoku::from_values(vec![0; 81]).unwrap();
    sudoku.commit(0, 5);
    sudoku.commit(40, 5);
    sudoku.retract(40);
    assert_eq!(sudoku.values()[40], 0);
    // Cell 4 shares the column with cell 40 and the row with cell 0.
    assert!(!sudoku.possible_values(4).contains(&5));
    // Cell 41 shares only with cell 40.
    assert!(sudoku.possible_values(41).contains(&5));
    assert_candidates_consistent(&sudoku);
    sudoku.retract(0);
    assert_eq!(*sudoku.values(), vec![0; 81]);
    assert_candidates_consistent(&sudoku);
}

#[test]
fn collapse_commits_and_retracts() {
    let mut sudoku = Sudoku::from_values(vec![0; 81]).unwrap();
    sudoku.collapse(10, 3);
    assert_eq!(sudoku.values()[10], 3);
    assert!(!sudoku.possible_values(11).contains(&3));
    assert_candidates_consistent(&sudoku);
    sudoku.collapse(10, 0);
    assert_eq!(sudoku.values()[10], 0);
    assert!(sudoku.possible_values(11).contains(&3));
    assert_candidates_consistent(&sudoku);
}

#[test]
fn lowest_entropy_picks_the_first_of_the_fewest() {
    let blank = Sudoku::from_values(vec![0; 81]).unwrap();
    assert_eq!(blank.lowest_entropy(), Some(0));

    let mut sudoku = Sudoku::from_values(vec![0; 81]).unwrap();
    sudoku.commit(40, 5);
    // The peers of cell 40 have eight candidates each; cell 4 is the first.
    assert_eq!(sudoku.lowest_entropy(), Some(4));
    sudoku.commit(80, 6);
    // Cells 44 and 76 see both values; cell 44 comes first.
    assert_eq!(sudoku.lowest_entropy(), Some(44));
}

#[test]
fn lowest_entropy_on_a_full_board() {
    let mut sudoku = Sudoku::from_values(classic()).unwrap();
    assert_eq!(sudoku.lowest_entropy().map(|i| sudoku.values()[i]), Some(0));
    assert!(sudoku.solve());
    assert_eq!(sudoku.lowest_entropy(), None);
}

#[test]
fn candidates_stay_consistent_through_a_search() {
    let mut sudoku = Sudoku::from_values(classic()).unwrap();
    assert!(sudoku.solve());
    assert_candidates_consistent(&sudoku);
    let mut failing = Sudoku::from_values(impossible()).unwrap();
    assert_candidates_consistent(&failing);
    assert!(!failing.solve());
    assert_candidates_consistent(&failing);
}
