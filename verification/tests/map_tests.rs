use sudoku_rust::SUDOKU_ALL_CANDIDATES;
use sudoku_rust::cell::SudokuCell;
use sudoku_rust::groups::SudokuGroupGenBuilder;
use sudoku_rust::groups::create_group_index_set;
use sudoku_rust::map::SudokuMap;

const PUZZLE: &str = "........77.4...893..68.2.....75286...8...67.19.34...8....7.49..6...9....459...1.8";
const SOLUTION: &str = "815349267724651893396872415147528639582936741963417582231784956678195324459263178";

#[test]
fn test_sudokumap_check_correct_answer() {
    let input = PUZZLE;
    let cell_groups = create_group_index_set();
    let group_builder = SudokuGroupGenBuilder::new();
    let mut sudoku_map = SudokuMap::new(input, &cell_groups, &group_builder);
    sudoku_map.solve();
    assert!(sudoku_map.check(input));
}

#[test]
fn test_sudokumap_check_not_solved() {
    let input = PUZZLE;
    let cell_groups = create_group_index_set();
    let group_builder = SudokuGroupGenBuilder::new();
    assert!(!SudokuMap::new(input, &cell_groups, &group_builder).check(input));
}

#[test]
fn test_sudokumap_check_wrong_answer1() {
    let input = PUZZLE;
    let wrong = "........67.4...893..68.2.....75286...8...67.19.34...8....7.49..6...9....459...1.8";
    let cell_groups = create_group_index_set();
    let group_builder = SudokuGroupGenBuilder::new();
    let mut sudoku_map = SudokuMap::new(input, &cell_groups, &group_builder);
    sudoku_map.solve();
    assert!(!sudoku_map.check(wrong));
}

#[test]
fn test_sudokumap_check_wrong_answer2() {
    let input = PUZZLE;
    let wrong = "1.......77.4...893..68.2.....75286...8...67.19.34...8....7.49..6...9....459...1.8";
    let cell_groups = create_group_index_set();
    let group_builder = SudokuGroupGenBuilder::new();
    let mut sudoku_map = SudokuMap::new(input, &cell_groups, &group_builder);
    sudoku_map.solve();
    assert!(!sudoku_map.check(wrong));
}

#[test]
fn test_solve_concrete_line() {
    let cell_groups = create_group_index_set();
    let group_builder = SudokuGroupGenBuilder::new();
    let mut sudoku_map = SudokuMap::new(PUZZLE, &cell_groups, &group_builder);
    assert!(sudoku_map.solve());
    assert_eq!(sudoku_map.to_string(true), SOLUTION.to_string());
}

#[test]
fn test_solved_groups_hold_all_digits() {
    let cell_groups = create_group_index_set();
    let group_builder = SudokuGroupGenBuilder::new();
    let mut sudoku_map = SudokuMap::new(PUZZLE, &cell_groups, &group_builder);
    assert!(sudoku_map.solve());
    let mut gen = group_builder.create();
    while let Some(indexes) = gen.next() {
        let mut union = 0u32;
        for cell_index in indexes.iter() {
            let cell = sudoku_map.cells[*cell_index];
            assert_eq!(cell.candidates.count_ones(), 1);
            assert_eq!(union & cell.candidates, 0);
            union |= cell.candidates;
        }
        assert_eq!(union, SUDOKU_ALL_CANDIDATES);
    }
}

#[test]
fn test_solve_is_idempotent() {
    let cell_groups = create_group_index_set();
    let group_builder = SudokuGroupGenBuilder::new();
    let mut sudoku_map = SudokuMap::new(PUZZLE, &cell_groups, &group_builder);
    assert!(sudoku_map.solve());
    let first = sudoku_map.to_string(true);
    assert!(sudoku_map.solve());
    let second = sudoku_map.to_string(true);
    assert_eq!(first, second);
}

#[test]
fn test_duplicate_clue_in_row_fails() {
    let input = "11...............................................................................";
    let cell_groups = create_group_index_set();
    let group_builder = SudokuGroupGenBuilder::new();
    let mut sudoku_map = SudokuMap::new(input, &cell_groups, &group_builder);
    assert!(!sudoku_map.solve());
}

#[test]
fn test_duplicate_clue_in_column_fails() {
    let input = "5........5.......................................................................";
    let cell_groups = create_group_index_set();
    let group_builder = SudokuGroupGenBuilder::new();
    let mut sudoku_map = SudokuMap::new(input, &cell_groups, &group_builder);
    assert!(!sudoku_map.solve());
}

#[test]
fn test_duplicate_clue_in_box_fails() {
    let input = "7.........7......................................................................";
    let cell_groups = create_group_index_set();
    let group_builder = SudokuGroupGenBuilder::new();
    let mut sudoku_map = SudokuMap::new(input, &cell_groups, &group_builder);
    assert!(!sudoku_map.solve());
}

#[test]
fn test_short_line_leaves_tail_cells_full() {
    let input = "123456789";
    let cell_groups = create_group_index_set();
    let group_builder = SudokuGroupGenBuilder::new();
    let sudoku_map = SudokuMap::new(input, &cell_groups, &group_builder);
    for column in 0..9 {
        assert_eq!(sudoku_map.cells[column].candidates, 1u32 << column);
    }
    for index in 9..81 {
        assert_eq!(sudoku_map.cells[index].candidates, SUDOKU_ALL_CANDIDATES);
    }
}

#[test]
fn test_characters_past_the_board_are_ignored() {
    let long_line = format!("{}999", PUZZLE);
    let cell_groups = create_group_index_set();
    let group_builder = SudokuGroupGenBuilder::new();
    let mut sudoku_map = SudokuMap::new(long_line.as_str(), &cell_groups, &group_builder);
    assert!(sudoku_map.solve());
    assert_eq!(sudoku_map.to_string(true), SOLUTION.to_string());
}

#[test]
fn test_diagnostic_form_lists_candidates() {
    let cell_groups = create_group_index_set();
    let group_builder = SudokuGroupGenBuilder::new();
    let mut first_row = String::new();
    first_row.push('1');
    for _ in 0..80 {
        first_row.push('.');
    }
    let mut sudoku_map = SudokuMap::new(first_row.as_str(), &cell_groups, &group_builder);
    sudoku_map.filter_unique_candidates();
    let text = sudoku_map.to_string(false);
    let lines: Vec<&str> = text.split('\n').collect();
    assert_eq!(lines.len(), 10);
    assert!(lines[9].is_empty());
    let cells: Vec<&str> = lines[0].split(':').collect();
    assert_eq!(cells.len(), 10);
    assert_eq!(cells[0], "1");
    assert_eq!(cells[1], "23456789");
    assert!(cells[9].is_empty());
}

#[test]
fn test_backtracking_target_prefers_fewest_candidates() {
    // two candidates left in one cell, more everywhere else
    let input = "1234567..........................................................................";
    let cell_groups = create_group_index_set();
    let group_builder = SudokuGroupGenBuilder::new();
    let sudoku_map = SudokuMap::new(input, &cell_groups, &group_builder);
    let target = sudoku_map.find_backtracking_target();
    assert!(target < 81);
    assert!(sudoku_map.cells[target].count_candidates() >= 2);
}

#[test]
fn test_empty_cell_makes_board_inconsistent() {
    // a cell with zero candidates is an inconsistency on its own, even
    // while every group still covers every digit
    let cell_groups = create_group_index_set();
    let group_builder = SudokuGroupGenBuilder::new();
    let mut sudoku_map = SudokuMap::new("", &cell_groups, &group_builder);
    sudoku_map.cells[0].candidates = 0;
    assert!(!sudoku_map.is_group_consistent(&cell_groups[0][0]));
    assert!(!sudoku_map.is_consistent());
    assert!(!sudoku_map.solve());
}

#[test]
fn test_empty_line_still_solves() {
    let cell_groups = create_group_index_set();
    let group_builder = SudokuGroupGenBuilder::new();
    let mut sudoku_map = SudokuMap::new("", &cell_groups, &group_builder);
    assert!(sudoku_map.solve());
    assert!(sudoku_map.check(""));
}
