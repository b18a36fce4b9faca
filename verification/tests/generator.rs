use rand::rngs::StdRng;
use rand::SeedableRng;
use sudoku::fast_backtracking_solver::solve;
use sudoku::generator::{
    generate, generate_seeded_by, generate_valid_grid, generate_with, place_cell, place_drawn,
    remove_cells, remove_cells_in_order, GenerateError, MAX_ATTEMPTS,
};
use sudoku::utils::{count_clues, is_consistent, Cells};

const CLASSIC: Cells = [
    5, 3, 0, 0, 7, 0, 0, 0, 0, //
    6, 0, 0, 1, 9, 5, 0, 0, 0, //
    0, 9, 8, 0, 0, 0, 0, 6, 0, //
    8, 0, 0, 0, 6, 0, 0, 0, 3, //
    4, 0, 0, 8, 0, 3, 0, 0, 1, //
    7, 0, 0, 0, 2, 0, 0, 0, 6, //
    0, 6, 0, 0, 0, 0, 2, 8, 0, //
    0, 0, 0, 4, 1, 9, 0, 0, 5, //
    0, 0, 0, 0, 8, 0, 0, 7, 9,
];

const SOLVED: Cells = [
    5, 3, 4, 6, 7, 8, 9, 1, 2, //
    6, 7, 2, 1, 9, 5, 3, 4, 8, //
    1, 9, 8, 3, 4, 2, 5, 6, 7, //
    8, 5, 9, 7, 6, 1, 4, 2, 3, //
    4, 2, 6, 8, 5, 3, 7, 9, 1, //
    7, 1, 3, 9, 2, 4, 8, 5, 6, //
    9, 6, 1, 5, 3, 7, 2, 8, 4, //
    2, 8, 7, 4, 1, 9, 6, 3, 5, //
    3, 4, 5, 2, 8, 6, 1, 7, 9,
];

/// SOLVED after 21 cells were emptied in ascending order of their index.
const FIRST_21_GONE: Cells = [
    0, 0, 0, 0, 0, 0, 0, 0, 0, //
    0, 0, 0, 0, 0, 0, 3, 0, 8, //
    0, 0, 0, 0, 0, 2, 5, 6, 7, //
    8, 5, 9, 7, 6, 1, 4, 2, 3, //
    4, 2, 6, 8, 5, 3, 7, 9, 1, //
    7, 1, 3, 9, 2, 4, 8, 5, 6, //
    9, 6, 1, 5, 3, 7, 2, 8, 4, //
    2, 8, 7, 4, 1, 9, 6, 3, 5, //
    3, 4, 5, 2, 8, 6, 1, 7, 9,
];

/// SOLVED after every cell was tried in descending order of its index.
const EMPTIED_FROM_THE_END: Cells = [
    5, 3, 0, 0, 7, 8, 9, 1, 0, //
    0, 7, 2, 0, 9, 0, 3, 4, 0, //
    1, 0, 0, 0, 4, 0, 0, 6, 0, //
    0, 5, 9, 0, 6, 1, 4, 0, 0, //
    0, 0, 0, 0, 0, 0, 7, 0, 0, //
    7, 0, 0, 9, 0, 0, 0, 0, 0, //
    0, 6, 0, 5, 3, 0, 0, 0, 0, //
    2, 0, 0, 0, 0, 0, 0, 0, 0, //
    0, 0, 0, 0, 0, 0, 0, 0, 0,
];

fn ascending() -> Vec<usize> {
    (0..81).collect()
}

fn descending() -> Vec<usize> {
    (0..81).rev().collect()
}

fn is_complete_and_valid(board: &Cells) -> bool {
    board.iter().all(|&digit| 1 <= digit && digit <= 9) && is_consistent(board)
}

fn seeded(seed: u64) -> StdRng {
    StdRng::seed_from_u64(seed)
}

fn no_clue_could_go(cells: &Cells) -> bool {
    (0..81).all(|cell| {
        let mut without = *cells;
        without[cell] = 0;
        cells[cell] == 0 || solve(without, false, true).len() == 2
    })
}

#[test]
fn a_generated_puzzle_has_one_solution() {
    for seed in [5, 7, 9] {
        let puzzle = generate_with(&mut seeded(seed), Some(35)).unwrap();
        let solutions = solve(puzzle.cells(), false, true);
        assert_eq!(solutions.len(), 1);
        assert_eq!(solve(puzzle.cells(), false, false).len(), 1);
        assert_eq!(solve(puzzle.cells(), true, false), solutions);
        assert!(is_complete_and_valid(&solutions[0]));
    }
}

#[test]
fn a_generated_puzzle_keeps_the_wanted_clues() {
    for (seed, target) in [(46u64, 30u8), (47, 35), (49, 50), (51, 64), (53, 80)] {
        let puzzle = generate_with(&mut seeded(seed), Some(target)).unwrap();
        let clues = count_clues(&puzzle.cells());
        assert!(clues >= target as usize);
        assert!(clues <= 81);
        assert_eq!(puzzle.clue_count(), clues);
        assert!(is_consistent(&puzzle.cells()));
    }
}

#[test]
fn a_generous_target_is_met_exactly() {
    // Any three cells of a complete board can go: the first removals never fail.
    let puzzle = generate_with(&mut seeded(55), Some(78)).unwrap();
    assert_eq!(puzzle.clue_count(), 78);
}

#[test]
fn a_target_of_every_cell_gives_a_complete_board() {
    let puzzle = generate_with(&mut seeded(56), Some(81)).unwrap();
    assert_eq!(puzzle.clue_count(), 81);
    assert!(is_complete_and_valid(&puzzle.cells()));
}

#[test]
fn a_target_beyond_the_board_is_refused() {
    assert_eq!(generate(Some(82)).err(), Some(GenerateError::TargetOutOfRange));
    assert_eq!(generate(Some(255)).err(), Some(GenerateError::TargetOutOfRange));
    assert_eq!(
        generate_with(&mut seeded(5), Some(82)).err(),
        Some(GenerateError::TargetOutOfRange)
    );
}

#[test]
fn without_a_target_no_clue_is_left_that_could_go() {
    let puzzle = generate_with(&mut seeded(57), None).unwrap();
    let cells = puzzle.cells();
    assert_eq!(solve(cells, false, true).len(), 1);
    assert!(no_clue_could_go(&cells));
}

#[test]
fn a_puzzle_with_clues_to_spare_has_none_that_could_go() {
    let puzzle = generate_with(&mut seeded(58), Some(17)).unwrap();
    assert!(puzzle.clue_count() > 17);
    assert!(no_clue_could_go(&puzzle.cells()));
}

#[test]
fn the_same_seed_gives_the_same_puzzle() {
    let first = generate_with(&mut seeded(7), Some(40)).unwrap();
    let second = generate_with(&mut seeded(7), Some(40)).unwrap();
    assert_eq!(first.cells(), second.cells());
}

#[test]
fn a_complete_board_is_generated() {
    let board = generate_valid_grid(&mut seeded(9), MAX_ATTEMPTS).unwrap();
    assert!(is_complete_and_valid(&board));
    assert_eq!(solve(board, false, false), vec![board]);
}

#[test]
fn two_generated_boards_differ() {
    let first = generate_valid_grid(&mut seeded(5), MAX_ATTEMPTS).unwrap();
    let second = generate_valid_grid(&mut seeded(7), MAX_ATTEMPTS).unwrap();
    assert_ne!(first, second);
}

#[test]
fn too_few_attempts_give_no_board() {
    assert_eq!(generate_valid_grid(&mut seeded(5), 0), Err(GenerateError::GenerationFailure));
    assert_eq!(generate_valid_grid(&mut seeded(5), 1), Err(GenerateError::GenerationFailure));
    assert_eq!(generate_valid_grid(&mut seeded(5), 80), Err(GenerateError::GenerationFailure));
}

#[test]
fn a_digit_that_leads_to_a_solution_is_kept() {
    let mut board = CLASSIC;
    assert!(place_cell(&mut board, 2, 4));
    let mut expected = CLASSIC;
    expected[2] = 4;
    assert_eq!(board, expected);
}

#[test]
fn a_digit_that_leads_nowhere_is_taken_back() {
    // 1 is a candidate for cell 2, but the solution holds a 4 there.
    let mut board = CLASSIC;
    assert!(!place_cell(&mut board, 2, 1));
    assert_eq!(board, CLASSIC);
    // 5 stands in the row already.
    assert!(!place_cell(&mut board, 2, 5));
    assert_eq!(board, CLASSIC);
}

#[test]
fn a_refused_digit_empties_a_filled_cell() {
    let mut board = CLASSIC;
    assert!(!place_cell(&mut board, 0, 3));
    let mut expected = CLASSIC;
    expected[0] = 0;
    assert_eq!(board, expected);
}

#[test]
fn cells_go_in_the_given_order() {
    let mut board = SOLVED;
    remove_cells_in_order(&mut board, &ascending(), Some(78));
    let mut expected = SOLVED;
    expected[0] = 0;
    expected[1] = 0;
    expected[2] = 0;
    assert_eq!(board, expected);
}

#[test]
fn a_cell_that_is_needed_stays() {
    let mut board = SOLVED;
    remove_cells_in_order(&mut board, &ascending(), Some(60));
    assert_eq!(board, FIRST_21_GONE);
    assert_eq!(count_clues(&board), 60);
}

#[test]
fn without_a_threshold_every_cell_is_tried() {
    let mut board = SOLVED;
    remove_cells_in_order(&mut board, &descending(), None);
    assert_eq!(board, EMPTIED_FROM_THE_END);
    assert_eq!(count_clues(&board), 26);
    assert_eq!(solve(board, false, true), vec![SOLVED]);
}

#[test]
fn a_threshold_of_every_cell_empties_nothing() {
    let mut board = SOLVED;
    remove_cells_in_order(&mut board, &ascending(), Some(81));
    assert_eq!(board, SOLVED);
    remove_cells_in_order(&mut board, &ascending(), Some(200));
    assert_eq!(board, SOLVED);
}

#[test]
fn a_short_order_ends_the_removal() {
    let mut board = SOLVED;
    remove_cells_in_order(&mut board, &vec![80, 40], Some(0));
    let mut expected = SOLVED;
    expected[80] = 0;
    expected[40] = 0;
    assert_eq!(board, expected);
    remove_cells_in_order(&mut board, &Vec::new(), None);
    assert_eq!(board, expected);
}

#[test]
fn removal_on_an_ambiguous_board_empties_nothing() {
    let mut board = SOLVED;
    for cell in [3, 4, 30, 31] {
        board[cell] = 0;
    }
    let before = board;
    remove_cells_in_order(&mut board, &ascending(), None);
    assert_eq!(board, before);
}

#[test]
fn random_removal_keeps_the_solution() {
    for seed in [1, 2, 3] {
        let mut board = SOLVED;
        remove_cells(&mut seeded(seed), &mut board, Some(40));
        assert!(count_clues(&board) >= 40);
        for cell in 0..81 {
            assert!(board[cell] == 0 || board[cell] == SOLVED[cell]);
        }
        assert_eq!(solve(board, false, true), vec![SOLVED]);
    }
}

#[test]
fn random_removal_does_not_go_in_ascending_order() {
    let mut board = SOLVED;
    remove_cells(&mut seeded(4), &mut board, Some(60));
    assert_eq!(count_clues(&board), 60);
    assert_ne!(board, FIRST_21_GONE);
}

#[test]
fn random_removal_without_a_threshold_leaves_no_clue_that_could_go() {
    let mut board = SOLVED;
    remove_cells(&mut seeded(6), &mut board, None);
    assert_eq!(solve(board, false, true), vec![SOLVED]);
    assert!(no_clue_could_go(&board));
}

fn no_entropy() -> Result<StdRng, rand::Error> {
    Err(rand::Error::new("no random bytes"))
}

#[test]
fn a_seeding_that_failed_gives_no_puzzle() {
    assert_eq!(generate_seeded_by(no_entropy(), Some(35)).err(), Some(GenerateError::NoEntropy));
    assert_eq!(generate_seeded_by(no_entropy(), None).err(), Some(GenerateError::NoEntropy));
    assert_eq!(generate_seeded_by(no_entropy(), Some(81)).err(), Some(GenerateError::NoEntropy));
}

#[test]
fn a_target_beyond_the_board_is_refused_before_the_seeding_counts() {
    assert_eq!(
        generate_seeded_by(no_entropy(), Some(82)).err(),
        Some(GenerateError::TargetOutOfRange)
    );
    assert_eq!(
        generate_seeded_by(Ok(seeded(5)), Some(82)).err(),
        Some(GenerateError::TargetOutOfRange)
    );
}

#[test]
fn a_seeding_that_succeeded_gives_the_puzzle_of_its_generator() {
    let puzzle = generate_seeded_by(Ok(seeded(7)), Some(40)).unwrap();
    let same = generate_with(&mut seeded(7), Some(40)).unwrap();
    assert_eq!(puzzle.cells(), same.cells());
    assert!(puzzle.clue_count() >= 40);
    assert_eq!(solve(puzzle.cells(), false, true).len(), 1);
}

#[test]
fn a_drawn_digit_that_leads_to_a_solution_takes_its_cell_off_the_waiting_cells() {
    let mut board = CLASSIC;
    let mut waiting: Vec<usize> = (0..81).filter(|&cell| CLASSIC[cell] == 0).collect();
    assert_eq!(waiting[0], 2);
    assert_eq!(waiting[1], 3);
    assert!(place_drawn(&mut board, &mut waiting, 0, 4));
    let mut expected = CLASSIC;
    expected[2] = 4;
    assert_eq!(board, expected);
    let left: Vec<usize> = (0..81).filter(|&cell| expected[cell] == 0).collect();
    assert_eq!(waiting, left);
    assert_eq!(waiting[0], 3);
}

#[test]
fn a_drawn_digit_that_leads_nowhere_leaves_its_cell_waiting() {
    let mut board = CLASSIC;
    let before: Vec<usize> = (0..81).filter(|&cell| CLASSIC[cell] == 0).collect();
    let mut waiting = before.clone();
    // 1 is a candidate for cell 2, but the solution holds a 4 there.
    assert!(!place_drawn(&mut board, &mut waiting, 0, 1));
    assert_eq!(board, CLASSIC);
    assert_eq!(waiting, before);
    // Cell 80 is the last of the waiting cells but holds a clue: a refused digit empties it.
    let mut waiting = vec![2, 80];
    assert!(!place_drawn(&mut board, &mut waiting, 1, 7));
    let mut expected = CLASSIC;
    expected[80] = 0;
    assert_eq!(board, expected);
    assert_eq!(waiting, vec![2, 80]);
}

#[test]
fn draws_are_placed_in_turn_from_the_empty_board() {
    let mut board: Cells = [0; 81];
    let mut waiting: Vec<usize> = (0..81).collect();
    // Cell 0 takes a 5.
    assert!(place_drawn(&mut board, &mut waiting, 0, 5));
    assert_eq!(waiting.len(), 80);
    assert_eq!(waiting[0], 1);
    // Cell 1 cannot take a 5 beside it.
    assert!(!place_drawn(&mut board, &mut waiting, 0, 5));
    assert_eq!(waiting.len(), 80);
    assert_eq!(board[1], 0);
    // The last waiting cell, cell 80, can.
    assert!(place_drawn(&mut board, &mut waiting, 79, 5));
    assert_eq!(waiting.len(), 79);
    assert_eq!(waiting[78], 79);
    let mut expected: Cells = [0; 81];
    expected[0] = 5;
    expected[80] = 5;
    assert_eq!(board, expected);
}
