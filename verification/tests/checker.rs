use sudoku::utils::{count_clues, get_candidates, is_consistent, is_in_range, validate_candidate, Cells};

const BOARD: Cells = [
    5, 3, 0, 0, 7, 0, 0, 0, 0, //
    6, 0, 0, 1, 9, 5, 0, 0, 0, //
    0, 9, 8, 0, 0, 0, 0, 6, 0, //
    8, 0, 0, 0, 6, 0, 0, 0, 3, //
    4, 0, 0, 8, 0, 3, 0, 0, 1, //
    7, 0, 0, 0, 2, 0, 0, 0, 6, //
    0, 6, 0, 0, 0, 0, 2, 8, 0, //
    0, 0, 0, 4, 1, 9, 0, 0, 5, //
    0, 0, 0, 0, 8, 0, 0, 7, 9,
];

#[test]
fn a_digit_of_the_row_is_refused() {
    assert!(!validate_candidate(&BOARD, 2, 7));
    assert!(!validate_candidate(&BOARD, 2, 3));
}

#[test]
fn a_digit_of_the_column_is_refused() {
    // Cell 40 is the centre; its column holds 7, 9, 6, 2, 1 and 8.
    assert!(!validate_candidate(&BOARD, 40, 1));
    assert!(!validate_candidate(&BOARD, 40, 9));
}

#[test]
fn a_digit_of_the_box_is_refused() {
    // Cell 20 holds the 8 of the first box; cell 10 shares neither row nor column with it.
    assert!(!validate_candidate(&BOARD, 10, 8));
    // The 6 of cell 9 is in the row of cell 10, the 9 of cell 19 in its column.
    assert!(!validate_candidate(&BOARD, 10, 6));
    assert!(!validate_candidate(&BOARD, 10, 9));
}

#[test]
fn a_digit_of_no_peer_is_accepted() {
    assert!(validate_candidate(&BOARD, 2, 1));
    assert!(validate_candidate(&BOARD, 2, 2));
    assert!(validate_candidate(&BOARD, 2, 4));
    assert!(validate_candidate(&BOARD, 40, 5));
}

#[test]
fn what_the_cell_itself_holds_is_ignored() {
    // Cell 0 holds a 5 and no peer of it does.
    assert!(validate_candidate(&BOARD, 0, 5));
    // Cell 80 holds a 9 and no peer of it does.
    assert!(validate_candidate(&BOARD, 80, 9));
    // A peer of cell 0 holds the 3.
    assert!(!validate_candidate(&BOARD, 0, 3));
}

#[test]
fn the_corner_cells_are_checked_against_their_own_groups() {
    let mut board: Cells = [0; 81];
    board[80] = 4;
    // Row 8, column 8 and the last box see cell 80.
    assert!(!validate_candidate(&board, 72, 4));
    assert!(!validate_candidate(&board, 8, 4));
    assert!(!validate_candidate(&board, 60, 4));
    // Cell 0 and cell 59 do not.
    assert!(validate_candidate(&board, 0, 4));
    assert!(validate_candidate(&board, 59, 4));
}

#[test]
fn zero_and_large_values_are_compared_like_digits() {
    // No peer of cell 40 is empty on a full board; every peer is on an empty one.
    let empty: Cells = [0; 81];
    assert!(!validate_candidate(&empty, 40, 0));
    assert!(validate_candidate(&empty, 40, 10));
    let full: Cells = [1; 81];
    assert!(validate_candidate(&full, 40, 0));
    assert!(!validate_candidate(&full, 40, 1));
}

#[test]
fn the_same_question_has_the_same_answer() {
    for index in 0..81 {
        for value in 0..=10 {
            let first = validate_candidate(&BOARD, index, value);
            let second = validate_candidate(&BOARD, index, value);
            assert_eq!(first, second);
        }
    }
}

#[test]
fn candidates_come_in_ascending_order() {
    assert_eq!(get_candidates(&BOARD, 2), vec![1, 2, 4]);
    assert_eq!(get_candidates(&BOARD, 40), vec![5]);
    assert_eq!(get_candidates(&BOARD, 80), vec![4, 9]);
    assert_eq!(get_candidates(&BOARD, 0), vec![1, 2, 5]);
}

#[test]
fn every_digit_is_a_candidate_on_the_empty_board() {
    let empty: Cells = [0; 81];
    for index in 0..81 {
        assert_eq!(get_candidates(&empty, index), vec![1, 2, 3, 4, 5, 6, 7, 8, 9]);
    }
}

#[test]
fn a_cell_may_have_no_candidate() {
    let mut board: Cells = [0; 81];
    for cell in 0..8 {
        board[cell] = (cell + 1) as u8;
    }
    board[17] = 9;
    assert_eq!(get_candidates(&board, 8), Vec::<u8>::new());
}

#[test]
fn candidates_are_the_digits_that_pass_the_check() {
    for index in 0..81 {
        let expected: Vec<u8> = (1..=9).filter(|&v| validate_candidate(&BOARD, index, v)).collect();
        assert_eq!(get_candidates(&BOARD, index), expected);
    }
}

#[test]
fn a_valid_board_is_recognised() {
    assert!(is_consistent(&BOARD));
    assert!(is_consistent(&[0; 81]));
}

#[test]
fn a_conflict_is_recognised() {
    let mut board = BOARD;
    board[2] = 5;
    assert!(!is_consistent(&board));
    let mut board = BOARD;
    board[72] = 8;
    assert!(!is_consistent(&board));
}

#[test]
fn a_cell_out_of_range_is_recognised() {
    let mut board = BOARD;
    board[2] = 10;
    assert!(!is_in_range(&board));
    assert!(!is_consistent(&board));
    board[2] = 9;
    assert!(is_in_range(&board));
    board[2] = 5;
    assert!(is_in_range(&board));
}

#[test]
fn clues_are_counted() {
    assert_eq!(count_clues(&BOARD), 30);
    assert_eq!(count_clues(&[0; 81]), 0);
    assert_eq!(count_clues(&[7; 81]), 81);
}
