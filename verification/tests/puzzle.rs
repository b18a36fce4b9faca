use sudoku::utils::Cells;
use sudoku::{Puzzle, PuzzleError};

const CLASSIC: Cells = [
    5, 3, 0, 0, 7, 0, 0, 0, 0, //
    6, 0, 0, 1, 9, 5, 0, 0, 0, //
    0, 9, 8, 0, 0, 0, 0, 6, 0, //
    8, 0, 0, 0, 6, 0, 0, 0, 3, //
    4, 0, 0, 8, 0, 3, 0, 0, 1, //
    7, 0, 0, 0, 2, 0, 0, 0, 6, //
    0, 6, 0, 0, 0, 0, 2, 8, 0, //
    0, 0, 0, 4, 1, 9, 0, 0, 5, //
    0, 0, 0, 0, 8, 0, 0, 7, 9,
];

#[test]
fn a_board_with_one_solution_is_a_puzzle() {
    let puzzle = Puzzle::new(CLASSIC).ok().unwrap();
    assert_eq!(puzzle.cells(), CLASSIC);
    assert_eq!(puzzle.clue_count(), 30);
}

#[test]
fn a_cell_out_of_range_is_malformed() {
    let mut board = CLASSIC;
    board[80] = 10;
    assert_eq!(Puzzle::new(board).err(), Some(PuzzleError::Malformed));
}

#[test]
fn a_board_with_a_conflict_is_unsolvable() {
    let mut board = CLASSIC;
    board[2] = 5;
    assert_eq!(Puzzle::new(board).err(), Some(PuzzleError::Unsolvable));
}

#[test]
fn a_board_with_several_solutions_is_ambiguous() {
    assert_eq!(Puzzle::new([0; 81]).err(), Some(PuzzleError::Ambiguous));
    let mut board = CLASSIC;
    board[0] = 0;
    board[1] = 0;
    assert_eq!(Puzzle::new(board).err(), Some(PuzzleError::Ambiguous));
}
