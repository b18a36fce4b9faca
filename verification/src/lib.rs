//! Solving and generating 9×9 Sudoku puzzles.
//!
//! - `utils`: the board, its rules, the constraint checker and the drawing of a board as text.
//! - `search`: what a search for solutions returns.
//! - `fast_backtracking_solver`: the search engine, which goes on at the cell with the fewest
//!   candidates.
//! - `naive_backtracking_solver`: the baseline search, which fills the cells in index order.
//! - `generator`: random puzzles with exactly one solution.
//!
//! Every function is verified against its contract, but for the random draws, which come from
//! the `rand` crate.

use vstd::prelude::*;

pub mod fast_backtracking_solver;
pub mod generator;
pub mod naive_backtracking_solver;
mod random;
pub mod search;
mod trail;
pub mod utils;

verus! {

/// A puzzle: a board that has exactly one solution.
pub struct Puzzle {
    cells: utils::Cells,
}

/// Why a board is no puzzle.
#[derive(Clone, Copy, Debug, PartialEq, Eq)]
pub enum PuzzleError {
    /// A cell holds more than 9.
    Malformed,
    /// The board has no solution.
    Unsolvable,
    /// The board has more than one solution.
    Ambiguous,
}

impl View for Puzzle {
    type V = Seq<u8>;

    closed spec fn view(&self) -> Seq<u8> {
        self.cells@
    }
}

impl Puzzle {
    #[verifier::type_invariant]
    spec fn well_formed(self) -> bool {
        utils::has_unique_solution(self.cells@)
    }

    /// The puzzle on the given board, where the board has exactly one solution.
    pub fn new(cells: utils::Cells) -> (result: Result<Puzzle, PuzzleError>)
        ensures
            result is Ok <==> utils::has_unique_solution(cells@),
            match result {
                Ok(puzzle) => puzzle@ == cells@,
                Err(PuzzleError::Malformed) => !utils::in_range(cells@),
                Err(PuzzleError::Unsolvable) => utils::in_range(cells@) && forall|s: Seq<u8>|
                    !utils::solves(s, cells@),
                Err(PuzzleError::Ambiguous) => exists|s: Seq<u8>, t: Seq<u8>|
                    utils::solves(s, cells@) && utils::solves(t, cells@) && s != t,
            },
    {
        if !utils::is_in_range(&cells) {
            proof {
                if utils::has_unique_solution(cells@) {
                    let s = choose|s: Seq<u8>| #[trigger] utils::solves(s, cells@);
                    utils::lemma_solvable_is_consistent(s, cells@);
                }
            }
            return Err(PuzzleError::Malformed);
        }
        let solutions = fast_backtracking_solver::solve(cells, false, true);
        if solutions.len() == 0 {
            proof {
                search::lemma_uniqueness_oracle(cells@, true, solutions@);
                assert forall|s: Seq<u8>| !utils::solves(s, cells@) by {
                    if utils::solves(s, cells@) {
                        assert(search::recorded(solutions@, s));
                    }
                }
            }
            Err(PuzzleError::Unsolvable)
        } else if solutions.len() == 1 {
            proof {
                search::lemma_uniqueness_oracle(cells@, true, solutions@);
            }
            Ok(Puzzle { cells })
        } else {
            proof {
                assert(utils::solves(solutions@[0]@, cells@));
                assert(utils::solves(solutions@[1]@, cells@));
                assert(solutions@[0]@ != solutions@[1]@);
            }
            Err(PuzzleError::Ambiguous)
        }
    }

    /// The puzzle on a board that is known to have exactly one solution.
    pub(crate) fn from_unique(cells: utils::Cells) -> (puzzle: Puzzle)
        requires
            utils::has_unique_solution(cells@),
        ensures
            puzzle@ == cells@,
    {
        Puzzle { cells }
    }

    /// The board of the puzzle.
    pub fn cells(&self) -> (cells: utils::Cells)
        ensures
            cells@ == self@,
            utils::has_unique_solution(cells@),
    {
        proof {
            use_type_invariant(self);
        }
        self.cells
    }

    /// The number of clues.
    pub fn clue_count(&self) -> (count: usize)
        ensures
            count == utils::clue_count(self@),
            count <= 81,
    {
        utils::count_clues(&self.cells)
    }
}

} // verus!
