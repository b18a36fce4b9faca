//! The puzzle generator: a random complete board, built cell by cell with the search engine
//! as the judge of every placement, and then emptied cell by cell in random order for as long
//! as the board keeps exactly one solution.

use crate::fast_backtracking_solver::solve;
use crate::random::{fresh_generator, pick_one, random_below, shuffle};
use crate::search::{recorded, search_result};
use crate::utils::{
    candidate_seq, clue_count, clues_upto, complete, consistent, has_unique_solution, is_solution,
    legal, solves, Cells,
};
use crate::utils::get_candidates;
use crate::utils::{
    lemma_candidate_seq, lemma_clue_count_update, lemma_solution_digit_is_legal,
    lemma_solution_is_unique, lemma_solvable_is_consistent,
};
use crate::Puzzle;
use rand::rngs::StdRng;
use vstd::pervasive::unreached;
use vstd::prelude::*;

verus! {

/// Why no puzzle was generated.
#[derive(Clone, Copy, Debug, PartialEq, Eq)]
pub enum GenerateError {
    /// More clues were asked for than a board has cells.
    TargetOutOfRange,
    /// The random construction of the complete board used up its attempts.
    GenerationFailure,
    /// The operating system gave no random bytes to seed the generator with.
    NoEntropy,
}

/// How many placements `generate` tries before it gives up on the complete board.
pub const MAX_ATTEMPTS: usize = 100000;

/// The board without a clue.
pub open spec fn empty_board() -> Seq<u8> {
    Seq::new(81, |i: int| 0u8)
}

/// The board has a solution.
pub open spec fn solvable(b: Seq<u8>) -> bool {
    exists|s: Seq<u8>| solves(s, b)
}

/// One placement on a board and its waiting cells. The draw names a place among the waiting
/// cells and a digit. The digit goes into the cell that waits there; it stays, and the cell
/// waits no longer, where the board then has a solution; else the cell is emptied again.
pub open spec fn placed(b: Seq<u8>, waiting: Seq<usize>, draw: (usize, u8)) -> (
    Seq<u8>,
    Seq<usize>,
) {
    let cell = waiting[draw.0 as int] as int;
    if solvable(b.update(cell, draw.1)) {
        (b.update(cell, draw.1), waiting.remove(draw.0 as int))
    } else {
        (b.update(cell, 0), waiting)
    }
}

/// The board and the waiting cells after the draws were placed in turn, from the board
/// without a clue, on which every cell waits.
pub open spec fn replayed(draws: Seq<(usize, u8)>) -> (Seq<u8>, Seq<usize>)
    decreases draws.len(),
{
    if draws.len() == 0 {
        (empty_board(), all_cells())
    } else {
        placed(replayed(draws.drop_last()).0, replayed(draws.drop_last()).1, draws.last())
    }
}

/// Each draw is one that can be drawn: a place among the cells that wait when it is drawn,
/// and a candidate for the cell that waits there.
pub open spec fn drawable(draws: Seq<(usize, u8)>) -> bool
    decreases draws.len(),
{
    if draws.len() == 0 {
        true
    } else {
        let before = replayed(draws.drop_last());
        &&& drawable(draws.drop_last())
        &&& draws.last().0 < before.1.len()
        &&& candidate_seq(before.0, before.1[draws.last().0 as int] as int).contains(draws.last().1)
    }
}

/// The board meets what was asked of a puzzle: it has exactly one solution, holds the wanted
/// number of clues at least, and holds more only where no clue can go.
pub open spec fn meets_target(b: Seq<u8>, target_clue_count: Option<u8>) -> bool {
    &&& has_unique_solution(b)
    &&& clue_count(b) <= 81
    &&& target_clue_count matches Some(clues) ==> clues <= clue_count(b)
    &&& minimal(b) || (target_clue_count matches Some(clues) && clue_count(b) == clues)
}

/// `result` is what generating gives for some draws: the refusal of a target beyond the
/// board; else, for some draws of no more than `MAX_ATTEMPTS` placements and some order of
/// the cells, the board of the placements emptied in that order, where the placements fill
/// the board, and a failure where all `MAX_ATTEMPTS` placements leave a cell waiting.
pub open spec fn is_generated(
    target_clue_count: Option<u8>,
    result: Result<Puzzle, GenerateError>,
) -> bool {
    if target_clue_count matches Some(clues) && clues > 81 {
        result matches Err(e) && e == GenerateError::TargetOutOfRange
    } else {
        exists|draws: Seq<(usize, u8)>, order: Seq<usize>|
            #![trigger drawable(draws), is_cell_order(order)]
            drawable(draws) && draws.len() <= MAX_ATTEMPTS && is_cell_order(order) && match result {
                Ok(puzzle) => replayed(draws).1.len() == 0 && puzzle@ == reduced(
                    replayed(draws).0,
                    order,
                    quota_of(target_clue_count),
                ),
                Err(e) => e == GenerateError::GenerationFailure && draws.len() == MAX_ATTEMPTS
                    && replayed(draws).1.len() > 0,
            }
    }
}

/// How many cells may be emptied for a wanted number of clues: `81` less the clues, and all
/// of them where no number is given.
pub open spec fn quota_of(desired_clue_threshold: Option<u8>) -> nat {
    match desired_clue_threshold {
        Some(clues) => if clues >= 81 {
            0nat
        } else {
            (81 - clues) as nat
        },
        None => 81nat,
    }
}

/// Emptying `cell` leaves the board at most one solution.
pub open spec fn removable(b: Seq<u8>, cell: int) -> bool {
    forall|s: Seq<u8>, t: Seq<u8>|
        #![trigger solves(s, b.update(cell, 0)), solves(t, b.update(cell, 0))]
        solves(s, b.update(cell, 0)) && solves(t, b.update(cell, 0)) ==> s == t
}

/// The board after the cells of `order` were tried in turn, each emptied where that leaves
/// at most one solution, until `quota` cells were emptied or the order ran out.
pub open spec fn reduced(b: Seq<u8>, order: Seq<usize>, quota: nat) -> Seq<u8>
    decreases order.len(),
{
    if order.len() == 0 || quota == 0 {
        b
    } else if removable(b, order[0] as int) {
        reduced(b.update(order[0] as int, 0), order.drop_first(), (quota - 1) as nat)
    } else {
        reduced(b, order.drop_first(), quota)
    }
}

/// The cells of a board in ascending order.
pub open spec fn all_cells() -> Seq<usize> {
    Seq::new(81, |k: int| k as usize)
}

/// `order` holds each cell of a board once.
pub open spec fn is_cell_order(order: Seq<usize>) -> bool {
    order.to_multiset() == all_cells().to_multiset()
}

/// The cells that still wait for a digit: each once, and exactly the empty cells of the board.
spec fn pending_ok(indices: Seq<usize>, grid: Seq<u8>) -> bool {
    &&& indices.no_duplicates()
    &&& forall|k: int| 0 <= k < indices.len() ==> #[trigger] indices[k] < 81 && grid[indices[k] as int] == 0
    &&& forall|c: int| 0 <= c < 81 && #[trigger] grid[c] == 0 ==> indices.contains(c as usize)
}

/// No clue can go: emptying any filled cell leaves the board more than one solution.
pub open spec fn minimal(b: Seq<u8>) -> bool {
    forall|c: int| 0 <= c < 81 && #[trigger] b[c] != 0 ==> !removable(b, c)
}

/// A search without the stop at the first solution returns two boards exactly where emptying
/// the cell leaves more than one solution.
pub proof fn lemma_removable_by_search(b: Seq<u8>, cell: int, stop_at_second: bool, found: Seq<Cells>)
    requires
        search_result(b.update(cell, 0), false, stop_at_second, found),
    ensures
        removable(b, cell) <==> found.len() <= 1,
{
    let cleared = b.update(cell, 0);
    if found.len() <= 1 {
        assert forall|s: Seq<u8>, t: Seq<u8>|
            #![trigger solves(s, cleared), solves(t, cleared)]
            solves(s, cleared) && solves(t, cleared) implies s == t by {
            assert(recorded(found, s));
            assert(recorded(found, t));
        }
    } else {
        assert(solves(found[0]@, cleared));
        assert(solves(found[1]@, cleared));
        assert(found[0]@ != found[1]@);
    }
}

/// A board with exactly one solution keeps exactly one when cells are emptied as `reduced`
/// empties them.
pub proof fn lemma_reduced_keeps_uniqueness(b: Seq<u8>, order: Seq<usize>, quota: nat)
    requires
        b.len() == 81,
        forall|k: int| 0 <= k < order.len() ==> #[trigger] order[k] < 81,
        has_unique_solution(b),
    ensures
        has_unique_solution(reduced(b, order, quota)),
    decreases order.len(),
{
    if order.len() == 0 || quota == 0 {
    } else {
        let cell = order[0] as int;
        let rest = order.drop_first();
        assert forall|k: int| 0 <= k < rest.len() implies #[trigger] rest[k] < 81 by {
            assert(rest[k] == order[k + 1]);
        }
        if removable(b, cell) {
            let cleared = b.update(cell, 0);
            let only = choose|s: Seq<u8>| #[trigger]
                solves(s, b) && forall|t: Seq<u8>| #[trigger] solves(t, b) ==> t == s;
            assert forall|i: int| 0 <= i < 81 && #[trigger] cleared[i] != 0 implies only[i]
                == cleared[i] by {
                assert(b[i] != 0);
            }
            assert(solves(only, cleared));
            assert forall|t: Seq<u8>| #[trigger] solves(t, cleared) implies t == only by {}
            lemma_reduced_keeps_uniqueness(cleared, rest, (quota - 1) as nat);
        } else {
            lemma_reduced_keeps_uniqueness(b, rest, quota);
        }
    }
}

/// `reduced` only empties cells, and no more than `quota` of them.
pub proof fn lemma_reduced_clues(b: Seq<u8>, order: Seq<usize>, quota: nat)
    requires
        b.len() == 81,
        forall|k: int| 0 <= k < order.len() ==> #[trigger] order[k] < 81,
    ensures
        reduced(b, order, quota).len() == 81,
        forall|c: int|
            0 <= c < 81 ==> #[trigger] reduced(b, order, quota)[c] == 0 || reduced(b, order, quota)[c]
                == b[c],
        clue_count(reduced(b, order, quota)) <= clue_count(b),
        clue_count(b) <= clue_count(reduced(b, order, quota)) + quota,
    decreases order.len(),
{
    if order.len() == 0 || quota == 0 {
    } else {
        let cell = order[0] as int;
        let rest = order.drop_first();
        assert forall|k: int| 0 <= k < rest.len() implies #[trigger] rest[k] < 81 by {
            assert(rest[k] == order[k + 1]);
        }
        if removable(b, cell) {
            let cleared = b.update(cell, 0);
            lemma_clue_count_update(b, cell, 0);
            lemma_reduced_clues(cleared, rest, (quota - 1) as nat);
            assert forall|c: int| 0 <= c < 81 implies #[trigger] reduced(b, order, quota)[c] == 0
                || reduced(b, order, quota)[c] == b[c] by {
                assert(reduced(cleared, rest, (quota - 1) as nat)[c] == 0 || reduced(
                    cleared,
                    rest,
                    (quota - 1) as nat,
                )[c] == cleared[c]);
            }
        } else {
            lemma_reduced_clues(b, rest, quota);
        }
    }
}

/// Where emptying a cell leaves a board more than one solution, it leaves every board with
/// fewer clues more than one.
pub proof fn lemma_needed_clue_stays_needed(b: Seq<u8>, smaller: Seq<u8>, cell: int)
    requires
        b.len() == 81,
        smaller.len() == 81,
        0 <= cell < 81,
        forall|c: int| 0 <= c < 81 ==> #[trigger] smaller[c] == 0 || smaller[c] == b[c],
        !removable(b, cell),
    ensures
        !removable(smaller, cell),
{
    let cleared = b.update(cell, 0);
    let (s, t) = choose|s: Seq<u8>, t: Seq<u8>|
        #![trigger solves(s, cleared), solves(t, cleared)]
        solves(s, cleared) && solves(t, cleared) && s != t;
    let fewer = smaller.update(cell, 0);
    assert forall|i: int| 0 <= i < 81 && #[trigger] fewer[i] != 0 implies s[i] == fewer[i] && t[i]
        == fewer[i] by {
        assert(smaller[i] == b[i]);
        assert(cleared[i] != 0);
    }
    assert(solves(s, fewer) && solves(t, fewer));
}

/// Emptying in an order without repeats, on a board that is filled at every cell of the
/// order, stops in one of two ways: as many cells were emptied as `quota` allows, or no
/// cell of the order that is still filled can go.
pub proof fn lemma_reduced_is_thorough(b: Seq<u8>, order: Seq<usize>, quota: nat)
    requires
        b.len() == 81,
        order.no_duplicates(),
        forall|k: int| 0 <= k < order.len() ==> #[trigger] order[k] < 81 && b[order[k] as int] != 0,
    ensures
        clue_count(reduced(b, order, quota)) + quota == clue_count(b) || forall|k: int|
            0 <= k < order.len() && reduced(b, order, quota)[#[trigger] order[k] as int] != 0
                ==> !removable(reduced(b, order, quota), order[k] as int),
    decreases order.len(),
{
    if order.len() == 0 || quota == 0 {
    } else {
        let cell = order[0] as int;
        let rest = order.drop_first();
        let last = reduced(b, order, quota);
        assert forall|k: int| 0 <= k < rest.len() implies #[trigger] rest[k] < 81 && rest[k] != cell
            && b[rest[k] as int] != 0 by {
            assert(rest[k] == order[k + 1]);
        }
        assert(forall|k: int| 0 <= k < order.len() ==> #[trigger] order[k] < 81);
        if removable(b, cell) {
            let cleared = b.update(cell, 0);
            lemma_clue_count_update(b, cell, 0);
            lemma_reduced_clues(cleared, rest, (quota - 1) as nat);
            lemma_reduced_is_thorough(cleared, rest, (quota - 1) as nat);
            assert(last[cell] == 0);
            if clue_count(last) + quota != clue_count(b) {
                assert forall|k: int|
                    0 <= k < order.len() && last[#[trigger] order[k] as int] != 0 implies !removable(
                    last,
                    order[k] as int,
                ) by {
                    assert(k > 0);
                    assert(order[k] == rest[k - 1]);
                }
            }
        } else {
            lemma_reduced_clues(b, rest, quota);
            lemma_reduced_is_thorough(b, rest, quota);
            lemma_needed_clue_stays_needed(b, last, cell);
            if clue_count(last) + quota != clue_count(b) {
                assert forall|k: int|
                    0 <= k < order.len() && last[#[trigger] order[k] as int] != 0 implies !removable(
                    last,
                    order[k] as int,
                ) by {
                    if k > 0 {
                        assert(order[k] == rest[k - 1]);
                    }
                }
            }
        }
    }
}

/// An order that holds each cell once holds none twice, and misses none.
pub proof fn lemma_cell_order_is_thorough(order: Seq<usize>)
    requires
        is_cell_order(order),
    ensures
        order.no_duplicates(),
        forall|c: usize| c < 81 ==> #[trigger] order.contains(c),
{
    assert(all_cells().no_duplicates());
    all_cells().lemma_multiset_has_no_duplicates();
    order.lemma_multiset_has_no_duplicates_conv();
    assert forall|c: usize| c < 81 implies #[trigger] order.contains(c) by {
        assert(all_cells()[c as int] == c);
        assert(all_cells().contains(c));
        vstd::seq_lib::to_multiset_contains(all_cells(), c);
        vstd::seq_lib::to_multiset_contains(order, c);
    }
}

/// A board without a clue among its first `n` cells is empty there.
proof fn lemma_no_clues_upto(b: Seq<u8>, n: nat, c: int)
    requires
        clues_upto(b, n) == 0,
        0 <= c < n,
    ensures
        b[c] == 0,
    decreases n,
{
    if c < n - 1 {
        lemma_no_clues_upto(b, (n - 1) as nat, c);
    }
}

/// An order that holds each cell once has 81 entries, all of them cells.
pub proof fn lemma_cell_order_in_range(order: Seq<usize>)
    requires
        is_cell_order(order),
    ensures
        order.len() == 81,
        forall|k: int| 0 <= k < order.len() ==> #[trigger] order[k] < 81,
{
    vstd::seq_lib::to_multiset_len(order);
    vstd::seq_lib::to_multiset_len(all_cells());
    assert forall|k: int| 0 <= k < order.len() implies #[trigger] order[k] < 81 by {
        let x = order[k];
        assert(order.contains(x));
        vstd::seq_lib::to_multiset_contains(order, x);
        vstd::seq_lib::to_multiset_contains(all_cells(), x);
        assert(all_cells().contains(x));
        let j = choose|j: int| 0 <= j < all_cells().len() && all_cells()[j] == x;
        assert(x == j);
    }
}

/// Filling a waiting cell takes it off the waiting cells, and nothing else.
proof fn lemma_pending_remove(indices: Seq<usize>, grid: Seq<u8>, position: int, value: u8)
    requires
        pending_ok(indices, grid),
        grid.len() == 81,
        0 <= position < indices.len(),
        value != 0,
    ensures
        pending_ok(indices.remove(position), grid.update(indices[position] as int, value)),
{
    let cell = indices[position];
    let left = indices.remove(position);
    let grid2 = grid.update(cell as int, value);
    assert forall|k: int| 0 <= k < left.len() implies #[trigger] left[k] < 81 && grid2[left[k] as int]
        == 0 by {
        if k < position {
            assert(left[k] == indices[k]);
        } else {
            assert(left[k] == indices[k + 1]);
        }
    }
    assert forall|c: int| 0 <= c < 81 && #[trigger] grid2[c] == 0 implies left.contains(c as usize) by {
        assert(grid[c] == 0);
        let j = choose|j: int| 0 <= j < indices.len() && indices[j] == c as usize;
        if j < position {
            assert(left[j] == c as usize);
        } else {
            assert(left[j - 1] == c as usize);
        }
    }
}

/// Tries a digit at a cell: writes it, and keeps it where the board then has a solution;
/// otherwise the cell is emptied again.
pub fn place_cell(grid: &mut Cells, index: usize, value: u8) -> (kept: bool)
    requires
        index < 81,
    ensures
        kept <==> solvable(old(grid)@.update(index as int, value)),
        final(grid)@ == old(grid)@.update(index as int, if kept { value } else { 0 }),
{
    grid[index] = value;
    let solutions = solve(*grid, true, false);
    if solutions.len() == 0 {
        proof {
            assert forall|s: Seq<u8>| !solves(s, grid@) by {
                if solves(s, grid@) {
                    assert(recorded(solutions@, s));
                }
            }
        }
        grid[index] = 0;
        assert(grid@ =~= old(grid)@.update(index as int, 0));
        false
    } else {
        assert(solves(solutions@[0]@, grid@));
        true
    }
}

/// One placement of the random construction: writes the digit into the cell that waits at
/// `position`, and keeps it where the board then has a solution; the cell then waits no
/// longer. Otherwise the cell is emptied again and goes on waiting.
pub fn place_drawn(grid: &mut Cells, indices: &mut Vec<usize>, position: usize, value: u8) -> (kept:
    bool)
    requires
        position < old(indices)@.len(),
        old(indices)@[position as int] < 81,
    ensures
        kept <==> solvable(old(grid)@.update(old(indices)@[position as int] as int, value)),
        final(grid)@ == old(grid)@.update(
            old(indices)@[position as int] as int,
            if kept {
                value
            } else {
                0
            },
        ),
        final(indices)@ == if kept {
            old(indices)@.remove(position as int)
        } else {
            old(indices)@
        },
        (final(grid)@, final(indices)@) == placed(old(grid)@, old(indices)@, (position, value)),
{
    let index = indices[position];
    if place_cell(grid, index, value) {
        indices.remove(position);
        true
    } else {
        false
    }
}

/// A random complete valid board. Until every cell is filled, picks a random empty cell and
/// a random candidate for it, and keeps the digit where the board still has a solution. Gives
/// up after `max_attempts` placements; 81 of them are needed at least.
///
/// The result is that of some draws, placed in turn: the board that they fill, or a failure
/// where `max_attempts` draws leave a cell empty.
pub fn generate_valid_grid(rng: &mut StdRng, max_attempts: usize) -> (result: Result<
    Cells,
    GenerateError,
>)
    ensures
        exists|draws: Seq<(usize, u8)>| #[trigger]
            drawable(draws) && draws.len() <= max_attempts && match result {
                Ok(grid) => replayed(draws).1.len() == 0 && replayed(draws).0 == grid@,
                Err(e) => e == GenerateError::GenerationFailure && draws.len() == max_attempts
                    && replayed(draws).1.len() > 0,
            },
        match result {
            Ok(grid) => is_solution(grid@) && max_attempts >= 81,
            Err(e) => e == GenerateError::GenerationFailure,
        },
{
    let mut grid: Cells = [0;81];
    let mut indices: Vec<usize> = Vec::new();
    for i in 0usize..81
        invariant
            indices@ =~= Seq::new(i as nat, |k: int| k as usize),
    {
        indices.push(i);
    }
    let mut attempts: usize = 0;
    let ghost mut draws: Seq<(usize, u8)> = Seq::empty();
    proof {
        assert forall|c: int| 0 <= c < 81 && #[trigger] grid@[c] == 0 implies indices@.contains(
            c as usize,
        ) by {
            assert(indices@[c] == c as usize);
        }
        assert forall|i: int| 0 <= i < 81 && #[trigger] grid@[i] != 0 implies legal(
            grid@,
            i,
            grid@[i],
        ) by {}
        assert(grid@ =~= empty_board());
        assert(indices@ =~= all_cells());
    }
    while indices.len() > 0
        invariant
            consistent(grid@),
            pending_ok(indices@, grid@),
            attempts <= max_attempts,
            indices@.len() + attempts >= 81,
            draws.len() == attempts,
            drawable(draws),
            replayed(draws) == (grid@, indices@),
            solvable(grid@) || grid@ == empty_board(),
        decreases max_attempts - attempts,
    {
        if attempts >= max_attempts {
            return Err(GenerateError::GenerationFailure);
        }
        attempts += 1;
        let position = random_below(rng, indices.len());
        let index = indices[position];
        let candidates = get_candidates(&grid, index);
        let ghost before = grid@;
        let ghost waiting = indices@;
        proof {
            lemma_candidate_seq(before, index as int);
            if solvable(before) {
                let s = choose|s: Seq<u8>| solves(s, before);
                lemma_solution_digit_is_legal(s, before, index as int);
                assert(candidates@.contains(s[index as int]));
            } else {
                assert(legal(before, index as int, 1));
                assert(candidates@.contains(1u8));
            }
        }
        match pick_one(rng, &candidates) {
            Some(value) => {
                let kept = place_drawn(&mut grid, &mut indices, position, *value);
                proof {
                    let at = choose|at: int| 0 <= at < candidates@.len() && candidates@[at] == *value;
                    assert(1 <= candidates@[at] <= 9);
                    let longer = draws.push((position, *value));
                    assert(longer.drop_last() =~= draws);
                    assert(longer.last() == (position, *value));
                    assert(replayed(longer) == placed(before, waiting, (position, *value)));
                    assert(drawable(longer));
                    draws = longer;
                    if kept {
                        let s = choose|s: Seq<u8>| solves(s, before.update(index as int, *value));
                        lemma_solvable_is_consistent(s, grid@);
                        lemma_pending_remove(waiting, before, position as int, *value);
                    } else {
                        assert(grid@ =~= before);
                    }
                }
            },
            None => {
                return unreached();
            },
        }
    }
    proof {
        assert forall|c: int| 0 <= c < 81 implies #[trigger] grid@[c] != 0 by {
            if grid@[c] == 0 {
                assert(indices@.contains(c as usize));
            }
        }
    }
    Ok(grid)
}

/// Empties cells in the given order, each where that leaves the board at most one solution.
/// Stops when the order has run out, or when as many cells were emptied as the wanted number
/// of clues allows.
pub fn remove_cells_in_order(grid: &mut Cells, order: &Vec<usize>, desired_clue_threshold: Option<u8>)
    requires
        forall|k: int| 0 <= k < order@.len() ==> #[trigger] order@[k] < 81,
    ensures
        final(grid)@ == reduced(old(grid)@, order@, quota_of(desired_clue_threshold)),
{
    let quota: usize = match desired_clue_threshold {
        Some(clues) => if clues >= 81 {
            0
        } else {
            (81 - clues) as usize
        },
        None => 81,
    };
    let mut counter: usize = 0;
    let mut next: usize = 0;
    assert(order@.skip(0) =~= order@);
    while next < order.len() && counter < quota
        invariant
            quota == quota_of(desired_clue_threshold),
            counter <= quota,
            next <= order@.len(),
            forall|k: int| 0 <= k < order@.len() ==> #[trigger] order@[k] < 81,
            reduced(grid@, order@.skip(next as int), (quota - counter) as nat) == reduced(
                old(grid)@,
                order@,
                quota as nat,
            ),
        decreases order@.len() - next,
    {
        let i = order[next];
        let old_value = grid[i];
        let ghost before = grid@;
        let ghost rest = order@.skip(next as int);
        proof {
            assert(rest[0] == i);
            assert(rest.drop_first() =~= order@.skip(next + 1));
        }
        grid[i] = 0;
        let solutions = solve(*grid, false, true);
        proof {
            lemma_removable_by_search(before, i as int, true, solutions@);
        }
        if solutions.len() > 1 {
            grid[i] = old_value;
            assert(grid@ =~= before);
        } else {
            counter += 1;
        }
        next += 1;
    }
}

/// Empties cells in a random order, each where that leaves the board at most one solution,
/// until the order has run out or the board is down to the wanted number of clues.
pub fn remove_cells(rng: &mut StdRng, grid: &mut Cells, desired_clue_threshold: Option<u8>)
    ensures
        exists|order: Seq<usize>| #[trigger]
            is_cell_order(order) && final(grid)@ == reduced(
                old(grid)@,
                order,
                quota_of(desired_clue_threshold),
            ),
{
    let mut indices: Vec<usize> = Vec::new();
    for i in 0usize..81
        invariant
            indices@ =~= Seq::new(i as nat, |k: int| k as usize),
    {
        indices.push(i);
    }
    shuffle(rng, &mut indices);
    proof {
        assert(is_cell_order(indices@));
        lemma_cell_order_in_range(indices@);
    }
    remove_cells_in_order(grid, &indices, desired_clue_threshold);
}

/// A new puzzle, drawn from the caller's generator: a random complete board, emptied in
/// random order for as long as exactly one solution is left and more clues stand than
/// `target_clue_count`. Without a target, cells are emptied until none more can go. The
/// puzzle keeps more clues than were asked for where no further clue can go.
///
/// A target beyond the 81 cells is refused before anything is drawn. The construction of the
/// complete board fails where `MAX_ATTEMPTS` placements do not fill the board.
pub fn generate_with(rng: &mut StdRng, target_clue_count: Option<u8>) -> (result: Result<
    Puzzle,
    GenerateError,
>)
    ensures
        is_generated(target_clue_count, result),
        result matches Ok(puzzle) ==> meets_target(puzzle@, target_clue_count),
{
    match target_clue_count {
        Some(clues) => {
            if clues > 81 {
                return Err(GenerateError::TargetOutOfRange);
            }
        },
        None => {},
    }
    match generate_valid_grid(rng, MAX_ATTEMPTS) {
        Ok(full) => {
            let mut grid = full;
            remove_cells(rng, &mut grid, target_clue_count);
            proof {
                let quota = quota_of(target_clue_count);
                let order = choose|order: Seq<usize>| #[trigger]
                    is_cell_order(order) && grid@ == reduced(full@, order, quota);
                lemma_cell_order_in_range(order);
                lemma_solution_is_unique(full@);
                lemma_reduced_keeps_uniqueness(full@, order, quota);
                lemma_reduced_clues(full@, order, quota);
                lemma_full_board_clues(full@);
                lemma_cell_order_is_thorough(order);
                lemma_reduced_is_thorough(full@, order, quota);
                if !(target_clue_count matches Some(clues) && clue_count(grid@) == clues) {
                    assert forall|c: int| 0 <= c < 81 && #[trigger] grid@[c] != 0 implies !removable(
                        grid@,
                        c,
                    ) by {
                        if clue_count(grid@) + quota == clue_count(full@) {
                            lemma_no_clues_upto(grid@, 81, c);
                        } else {
                            assert(order.contains(c as usize));
                            let k = choose|k: int| 0 <= k < order.len() && order[k] == c as usize;
                            assert(grid@[order[k] as int] != 0);
                        }
                    }
                }
                let draws = choose|draws: Seq<(usize, u8)>| #[trigger]
                    drawable(draws) && draws.len() <= MAX_ATTEMPTS && replayed(draws).1.len() == 0
                        && replayed(draws).0 == full@;
                assert(drawable(draws) && is_cell_order(order));
            }
            let puzzle = Puzzle::from_unique(grid);
            Ok(puzzle)
        },
        Err(e) => {
            proof {
                let draws = choose|draws: Seq<(usize, u8)>| #[trigger]
                    drawable(draws) && draws.len() == MAX_ATTEMPTS && replayed(draws).1.len() > 0;
                assert(drawable(draws) && is_cell_order(all_cells()));
            }
            Err(e)
        },
    }
}

/// A new puzzle from a generator that was seeded, or the report that it could not be. A
/// target beyond the 81 cells is refused first, whatever the seeding gave.
pub fn generate_seeded_by(seeding: Result<StdRng, rand::Error>, target_clue_count: Option<u8>) -> (result:
    Result<Puzzle, GenerateError>)
    ensures
        (target_clue_count matches Some(clues) && clues > 81) ==> (result matches Err(e) && e
            == GenerateError::TargetOutOfRange),
        !(target_clue_count matches Some(clues) && clues > 81) && seeding is Err ==> (
        result matches Err(e) && e == GenerateError::NoEntropy),
        seeding is Ok ==> is_generated(target_clue_count, result),
        result matches Ok(puzzle) ==> meets_target(puzzle@, target_clue_count),
{
    match target_clue_count {
        Some(clues) => {
            if clues > 81 {
                return Err(GenerateError::TargetOutOfRange);
            }
        },
        None => {},
    }
    match seeding {
        Ok(mut rng) => generate_with(&mut rng, target_clue_count),
        Err(_) => Err(GenerateError::NoEntropy),
    }
}

/// A new puzzle, drawn from a generator that the operating system seeds: a random complete
/// board, emptied in random order for as long as exactly one solution is left and more clues
/// stand than `target_clue_count`. Without a target, cells are emptied until none more can
/// go. The puzzle keeps more clues than were asked for where no further clue can go.
///
/// The generator is seeded before the target is looked at. A target beyond the 81 cells is
/// refused all the same, and a seeding that failed is reported only for a target on the board.
pub fn generate(target_clue_count: Option<u8>) -> (result: Result<Puzzle, GenerateError>)
    ensures
        (result matches Err(e) && e == GenerateError::TargetOutOfRange) <==> (
        target_clue_count matches Some(clues) && clues > 81),
        is_generated(target_clue_count, result) || (result matches Err(e) && e
            == GenerateError::NoEntropy),
        result matches Ok(puzzle) ==> meets_target(puzzle@, target_clue_count),
{
    let seeding = fresh_generator();
    generate_seeded_by(seeding, target_clue_count)
}

/// A board without an empty cell holds 81 clues.
pub proof fn lemma_full_board_clues(b: Seq<u8>)
    requires
        complete(b),
    ensures
        clue_count(b) == 81,
{
    lemma_complete_clues_upto(b, 81);
}

/// A board without an empty cell holds a clue in each of its first `n` cells.
proof fn lemma_complete_clues_upto(b: Seq<u8>, n: nat)
    requires
        complete(b),
        n <= 81,
    ensures
        clues_upto(b, n) == n,
    decreases n,
{
    if n > 0 {
        lemma_complete_clues_upto(b, (n - 1) as nat);
        assert(b[n - 1] != 0);
    }
}

} // verus!
