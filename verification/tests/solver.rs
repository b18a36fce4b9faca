use sudoku::fast_backtracking_solver;
use sudoku::naive_backtracking_solver;
use sudoku::utils::Cells;

const CLASSIC: Cells = [
    5, 3, 0, 0, 7, 0, 0, 0, 0, //
    6, 0, 0, 1, 9, 5, 0, 0, 0, //
    0, 9, 8, 0, 0, 0, 0, 6, 0, //
    8, 0, 0, 0, 6, 0, 0, 0, 3, //
    4, 0, 0, 8, 0, 3, 0, 0, 1, //
    7, 0, 0, 0, 2, 0, 0, 0, 6, //
    0, 6, 0, 0, 0, 0, 2, 8, 0, //
    0, 0, 0, 4, 1, 9, 0, 0, 5, //
    0, 0, 0, 0, 8, 0, 0, 7, 9,
];

const SOLVED: Cells = [
    5, 3, 4, 6, 7, 8, 9, 1, 2, //
    6, 7, 2, 1, 9, 5, 3, 4, 8, //
    1, 9, 8, 3, 4, 2, 5, 6, 7, //
    8, 5, 9, 7, 6, 1, 4, 2, 3, //
    4, 2, 6, 8, 5, 3, 7, 9, 1, //
    7, 1, 3, 9, 2, 4, 8, 5, 6, //
    9, 6, 1, 5, 3, 7, 2, 8, 4, //
    2, 8, 7, 4, 1, 9, 6, 3, 5, //
    3, 4, 5, 2, 8, 6, 1, 7, 9,
];

/// SOLVED with the digits 6 and 7 exchanged in rows 0 and 3, columns 3 and 4.
const SOLVED_TWIN: Cells = [
    5, 3, 4, 7, 6, 8, 9, 1, 2, //
    6, 7, 2, 1, 9, 5, 3, 4, 8, //
    1, 9, 8, 3, 4, 2, 5, 6, 7, //
    8, 5, 9, 6, 7, 1, 4, 2, 3, //
    4, 2, 6, 8, 5, 3, 7, 9, 1, //
    7, 1, 3, 9, 2, 4, 8, 5, 6, //
    9, 6, 1, 5, 3, 7, 2, 8, 4, //
    2, 8, 7, 4, 1, 9, 6, 3, 5, //
    3, 4, 5, 2, 8, 6, 1, 7, 9,
];

/// SOLVED without the four cells in which SOLVED_TWIN differs: two solutions.
fn two_solutions() -> Cells {
    let mut board = SOLVED;
    for cell in [3, 4, 30, 31] {
        board[cell] = 0;
    }
    board
}

fn classic_without(cells: &[usize]) -> Cells {
    let mut board = CLASSIC;
    for &cell in cells {
        assert_ne!(board[cell], 0);
        board[cell] = 0;
    }
    board
}

/// Row 0 leaves only the digit 9 for its last cell, and column 8 holds a 9 already.
fn valid_but_hopeless() -> Cells {
    let mut board = [0; 81];
    for cell in 0..8 {
        board[cell] = (cell + 1) as u8;
    }
    board[17] = 9;
    board
}

fn group_is_complete(board: &Cells, cells: &[usize]) -> bool {
    let mut seen = [false; 10];
    for &cell in cells {
        let digit = board[cell] as usize;
        if digit < 1 || digit > 9 || seen[digit] {
            return false;
        }
        seen[digit] = true;
    }
    true
}

fn is_complete_and_valid(board: &Cells) -> bool {
    for n in 0..9 {
        let row: Vec<usize> = (0..9).map(|k| 9 * n + k).collect();
        let column: Vec<usize> = (0..9).map(|k| 9 * k + n).collect();
        let corner = 27 * (n / 3) + 3 * (n % 3);
        let square: Vec<usize> = (0..9).map(|k| corner + 9 * (k / 3) + k % 3).collect();
        if !group_is_complete(board, &row)
            || !group_is_complete(board, &column)
            || !group_is_complete(board, &square)
        {
            return false;
        }
    }
    true
}

fn keeps_clues(solution: &Cells, board: &Cells) -> bool {
    (0..81).all(|cell| board[cell] == 0 || board[cell] == solution[cell])
}

fn sorted(mut boards: Vec<Cells>) -> Vec<Cells> {
    boards.sort();
    boards
}

fn all_distinct(boards: &[Cells]) -> bool {
    let ordered = sorted(boards.to_vec());
    ordered.windows(2).all(|pair| pair[0] != pair[1])
}

#[test]
fn classic_fixture_first_row() {
    let solutions = fast_backtracking_solver::solve(CLASSIC, true, false);
    assert_eq!(solutions.len(), 1);
    assert_eq!(&solutions[0][0..9], &[5, 3, 4, 6, 7, 8, 9, 1, 2]);
}

#[test]
fn classic_fixture_whole_solution() {
    assert_eq!(fast_backtracking_solver::solve(CLASSIC, true, false), vec![SOLVED]);
    assert_eq!(naive_backtracking_solver::solve(CLASSIC, true, false), vec![SOLVED]);
}

#[test]
fn one_solution_whatever_the_flags() {
    for first in [false, true] {
        for second in [false, true] {
            assert_eq!(fast_backtracking_solver::solve(CLASSIC, first, second), vec![SOLVED]);
            assert_eq!(naive_backtracking_solver::solve(CLASSIC, first, second), vec![SOLVED]);
        }
    }
}

#[test]
fn no_solution_whatever_the_flags() {
    let hopeless = valid_but_hopeless();
    for first in [false, true] {
        for second in [false, true] {
            assert!(fast_backtracking_solver::solve(hopeless, first, second).is_empty());
            assert!(naive_backtracking_solver::solve(hopeless, first, second).is_empty());
        }
    }
}

#[test]
fn two_solutions_stop_at_first() {
    let board = two_solutions();
    let fast = fast_backtracking_solver::solve(board, true, false);
    assert_eq!(fast.len(), 1);
    assert!(fast[0] == SOLVED || fast[0] == SOLVED_TWIN);
    let naive = naive_backtracking_solver::solve(board, true, false);
    assert_eq!(naive.len(), 1);
    assert!(naive[0] == SOLVED || naive[0] == SOLVED_TWIN);
}

#[test]
fn two_solutions_stop_at_second() {
    let board = two_solutions();
    let expected = sorted(vec![SOLVED, SOLVED_TWIN]);
    assert_eq!(sorted(fast_backtracking_solver::solve(board, false, true)), expected);
    assert_eq!(sorted(naive_backtracking_solver::solve(board, false, true)), expected);
}

#[test]
fn two_solutions_in_full() {
    let board = two_solutions();
    let expected = sorted(vec![SOLVED, SOLVED_TWIN]);
    assert_eq!(sorted(fast_backtracking_solver::solve(board, false, false)), expected);
    assert_eq!(sorted(naive_backtracking_solver::solve(board, false, false)), expected);
}

#[test]
fn both_flags_stop_at_first() {
    let board = two_solutions();
    assert_eq!(fast_backtracking_solver::solve(board, true, true).len(), 1);
    assert_eq!(naive_backtracking_solver::solve(board, true, true).len(), 1);
}

#[test]
fn the_fast_search_tries_the_highest_candidate_first() {
    // The first cell to fill is cell 3, with the candidates 6 and 7.
    assert_eq!(fast_backtracking_solver::solve(two_solutions(), true, false), vec![SOLVED_TWIN]);
}

#[test]
fn the_naive_search_tries_the_lowest_candidate_first() {
    assert_eq!(naive_backtracking_solver::solve(two_solutions(), true, false), vec![SOLVED]);
}

#[test]
fn seventeen_solutions() {
    let board = classic_without(&[0, 1, 4, 9, 12]);
    let fast = fast_backtracking_solver::solve(board, false, false);
    assert_eq!(fast.len(), 17);
    assert!(all_distinct(&fast));
    for solution in &fast {
        assert!(is_complete_and_valid(solution));
        assert!(keeps_clues(solution, &board));
    }
    assert!(fast.contains(&SOLVED));
    assert_eq!(fast_backtracking_solver::solve(board, false, true).len(), 2);
    assert_eq!(fast_backtracking_solver::solve(board, true, false).len(), 1);
}

#[test]
fn sixty_four_solutions() {
    let board = classic_without(&[0, 1, 4, 9, 12, 13]);
    let fast = fast_backtracking_solver::solve(board, false, false);
    assert_eq!(fast.len(), 64);
    assert!(all_distinct(&fast));
    for solution in &fast {
        assert!(is_complete_and_valid(solution));
        assert!(keeps_clues(solution, &board));
    }
}

#[test]
fn both_searches_find_the_same_boards() {
    for cells in [&[0usize, 1, 4, 9, 12][..], &[0, 1, 4, 9, 12, 13][..], &[0, 1][..]] {
        let board = classic_without(cells);
        let fast = sorted(fast_backtracking_solver::solve(board, false, false));
        let naive = sorted(naive_backtracking_solver::solve(board, false, false));
        assert_eq!(fast, naive);
    }
}

#[test]
fn a_solved_board_is_its_own_solution() {
    for first in [false, true] {
        for second in [false, true] {
            assert_eq!(fast_backtracking_solver::solve(SOLVED, first, second), vec![SOLVED]);
            assert_eq!(naive_backtracking_solver::solve(SOLVED, first, second), vec![SOLVED]);
        }
    }
}

#[test]
fn a_full_board_with_a_conflict_has_no_solution() {
    let mut board = SOLVED;
    board[0] = 3;
    assert!(fast_backtracking_solver::solve(board, false, false).is_empty());
    assert!(naive_backtracking_solver::solve(board, false, false).is_empty());
}

#[test]
fn a_board_with_a_conflict_has_no_solution() {
    let mut board = CLASSIC;
    board[2] = 5;
    for first in [false, true] {
        for second in [false, true] {
            assert!(fast_backtracking_solver::solve(board, first, second).is_empty());
            assert!(naive_backtracking_solver::solve(board, first, second).is_empty());
        }
    }
}

#[test]
fn a_board_with_a_cell_out_of_range_has_no_solution() {
    let mut board = CLASSIC;
    board[2] = 10;
    assert!(fast_backtracking_solver::solve(board, false, false).is_empty());
    assert!(naive_backtracking_solver::solve(board, false, false).is_empty());
    board[2] = 255;
    assert!(fast_backtracking_solver::solve(board, true, false).is_empty());
    assert!(naive_backtracking_solver::solve(board, true, false).is_empty());
}

#[test]
fn the_empty_board_has_many_solutions() {
    let empty: Cells = [0; 81];
    let first = fast_backtracking_solver::solve(empty, true, false);
    assert_eq!(first.len(), 1);
    assert!(is_complete_and_valid(&first[0]));
    let two = fast_backtracking_solver::solve(empty, false, true);
    assert_eq!(two.len(), 2);
    assert_ne!(two[0], two[1]);
    assert!(is_complete_and_valid(&two[0]));
    assert!(is_complete_and_valid(&two[1]));
}

#[test]
fn the_naive_search_solves_the_empty_board() {
    let empty: Cells = [0; 81];
    let two = naive_backtracking_solver::solve(empty, false, true);
    assert_eq!(two.len(), 2);
    assert_ne!(two[0], two[1]);
    assert!(is_complete_and_valid(&two[0]));
    assert!(is_complete_and_valid(&two[1]));
    assert_eq!(&two[0][0..9], &[1, 2, 3, 4, 5, 6, 7, 8, 9]);
}

#[test]
fn the_input_board_is_left_alone() {
    let board = CLASSIC;
    let _ = fast_backtracking_solver::solve(board, false, false);
    let _ = naive_backtracking_solver::solve(board, false, false);
    assert_eq!(board, CLASSIC);
}

#[test]
fn the_naive_search_returns_its_boards_in_ascending_order() {
    for cells in [&[0usize, 1, 4, 9, 12][..], &[0, 1, 4, 9, 12, 13][..]] {
        let found = naive_backtracking_solver::solve(classic_without(cells), false, false);
        assert_eq!(found.clone(), sorted(found));
    }
}

#[test]
fn a_search_that_stops_early_returns_the_first_boards_of_the_full_search() {
    for cells in [&[0usize, 1, 4, 9, 12][..], &[0, 1, 4, 9, 12, 13][..], &[0, 1][..]] {
        let board = classic_without(cells);
        let fast = fast_backtracking_solver::solve(board, false, false);
        assert_eq!(fast_backtracking_solver::solve(board, true, false), fast[..1].to_vec());
        assert_eq!(fast_backtracking_solver::solve(board, false, true), fast[..2].to_vec());
        let naive = naive_backtracking_solver::solve(board, false, false);
        assert_eq!(naive_backtracking_solver::solve(board, true, false), naive[..1].to_vec());
        assert_eq!(naive_backtracking_solver::solve(board, false, true), naive[..2].to_vec());
    }
}
