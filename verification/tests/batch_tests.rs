use sudoku_rust::batch::chunk_bounds;
use sudoku_rust::batch::exec_single_threads;
use sudoku_rust::batch::solve_chunk;
use sudoku_rust::groups::SudokuGroupGenBuilder;
use sudoku_rust::groups::create_group_index_set;

const PUZZLE: &str = "........77.4...893..68.2.....75286...8...67.19.34...8....7.49..6...9....459...1.8";
const SOLUTION: &str = "815349267724651893396872415147528639582936741963417582231784956678195324459263178";
const DUP_LINE: &str = "11...............................................................................";

fn sample_batch() -> Vec<String> {
    vec![
        PUZZLE.to_string(),
        "123456789".to_string(),
        String::new(),
        PUZZLE.to_string(),
    ]
}

#[test]
fn test_single_threaded_batch() {
    let lines = vec![PUZZLE.to_string()];
    let (result, answers) = exec_single_threads(&lines, false).unwrap();
    assert!(result);
    assert_eq!(answers, format!("{}\n", SOLUTION));
}

#[test]
fn test_batch_with_failing_line_keeps_going() {
    let lines = vec![DUP_LINE.to_string(), PUZZLE.to_string()];
    let (result, answers) = exec_single_threads(&lines, false).unwrap();
    assert!(!result);
    let reported: Vec<&str> = answers.split('\n').collect();
    assert_eq!(reported.len(), 3);
    assert_eq!(reported[1], SOLUTION);
}

#[test]
fn test_verify_mode_tolerates_unsolvable_line() {
    // an unsolvable line is no engine defect: verify mode only turns the
    // flag false, exactly as the non-verify run does
    let lines = vec![PUZZLE.to_string(), DUP_LINE.to_string()];
    let (result, answers) = exec_single_threads(&lines, true).unwrap();
    assert!(!result);
    let plain = exec_single_threads(&lines, false).unwrap();
    assert!(!plain.0);
    assert_eq!(answers, plain.1);
    let reported: Vec<&str> = answers.split('\n').collect();
    assert_eq!(reported[0], SOLUTION);
}

#[test]
fn test_verify_mode_accepts_good_batch() {
    let lines = vec![PUZZLE.to_string(), PUZZLE.to_string()];
    let (result, answers) = exec_single_threads(&lines, true).unwrap();
    assert!(result);
    assert_eq!(answers, format!("{}\n{}\n", SOLUTION, SOLUTION));
}

#[test]
fn test_chunked_run_matches_serial_run() {
    let lines = sample_batch();
    let serial = exec_single_threads(&lines, false).unwrap();

    let cell_groups = create_group_index_set();
    let group_builder = SudokuGroupGenBuilder::new();
    for workers in 1..=lines.len() {
        let bounds = chunk_bounds(lines.len(), workers);
        let mut combined_result = true;
        let mut combined_answers = String::new();
        for (start, end) in bounds.iter() {
            let (result, answers) =
                solve_chunk(&lines, *start, *end, false, &cell_groups, &group_builder).unwrap();
            combined_result &= result;
            combined_answers.push_str(&answers);
        }
        assert_eq!(combined_result, serial.0);
        assert_eq!(combined_answers, serial.1);
    }
}

#[test]
fn test_chunk_bounds_partition() {
    let bounds = chunk_bounds(10, 3);
    assert_eq!(bounds, vec![(0, 3), (3, 6), (6, 10)]);
    let even = chunk_bounds(8, 4);
    assert_eq!(even, vec![(0, 2), (2, 4), (4, 6), (6, 8)]);
    let one = chunk_bounds(5, 1);
    assert_eq!(one, vec![(0, 5)]);
}

#[test]
fn test_empty_batch() {
    let lines: Vec<String> = Vec::new();
    let (result, answers) = exec_single_threads(&lines, true).unwrap();
    assert!(result);
    assert!(answers.is_empty());
}
