use sudoku_rust::SUDOKU_GROUP_SIZE;
use sudoku_rust::groups::SudokuGroupGenBuilder;
use sudoku_rust::groups::create_group_index_set;

#[test]
fn test_sudokugroupgen_next() {
    let number_of_group_type: usize = 3;
    let group_builder = SudokuGroupGenBuilder::new();
    let mut group = group_builder.create();
    let mut count = 0;

    for i in 0..(SUDOKU_GROUP_SIZE * number_of_group_type) {
        let mut expected: Vec<usize> = Vec::new();
        match i {
            0 => {
                expected.extend([0, 1, 2, 3, 4, 5, 6, 7, 8].to_vec());
                ()
            }
            8 => {
                expected.extend([72, 73, 74, 75, 76, 77, 78, 79, 80].to_vec());
                ()
            }
            9 => {
                expected.extend([0, 9, 18, 27, 36, 45, 54, 63, 72].to_vec());
                ()
            }
            17 => {
                expected.extend([8, 17, 26, 35, 44, 53, 62, 71, 80].to_vec());
                ()
            }
            23 => {
                expected.extend([33, 34, 35, 42, 43, 44, 51, 52, 53].to_vec());
                ()
            }
            _ => {}
        }

        let actual = group.next().unwrap();
        if !expected.is_empty() {
            assert!(*actual == expected);
            count += 1;
        }
    }

    assert!(count == 5);
    assert!(group.next() == None);
}

#[test]
fn test_group_index_set_shape() {
    let cell_groups = create_group_index_set();
    assert_eq!(cell_groups.len(), 81);
    for entry in cell_groups.iter() {
        assert_eq!(entry.len(), 3);
        for group in entry.iter() {
            assert_eq!(group.len(), 9);
        }
    }
    // cell 40 sits in the middle of the board
    assert_eq!(cell_groups[40][0], vec![36, 37, 38, 39, 40, 41, 42, 43, 44]);
    assert_eq!(cell_groups[40][1], vec![4, 13, 22, 31, 40, 49, 58, 67, 76]);
    assert_eq!(cell_groups[40][2], vec![30, 31, 32, 39, 40, 41, 48, 49, 50]);
    // cell 0 sits in the top-left corner
    assert_eq!(cell_groups[0][0], vec![0, 1, 2, 3, 4, 5, 6, 7, 8]);
    assert_eq!(cell_groups[0][1], vec![0, 9, 18, 27, 36, 45, 54, 63, 72]);
    assert_eq!(cell_groups[0][2], vec![0, 1, 2, 9, 10, 11, 18, 19, 20]);
}

#[test]
fn test_each_cell_in_its_groups() {
    let cell_groups = create_group_index_set();
    for cell_index in 0..81 {
        for group in cell_groups[cell_index].iter() {
            assert!(group.contains(&cell_index));
        }
    }
}
