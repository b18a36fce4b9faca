//! The search engine: iterative backtracking over the empty cells, always continuing at the
//! cell that has the fewest legal candidates.

use crate::search::{
    all_distinct, all_solve, boards, exhaustive, lists_solutions, recorded, search_result,
    stop_limit,
};
use crate::search::lemma_search_returns_first;
use crate::trail::{
    base, deferred, digit, digits_ok, frame_ok, in_branches, pending, rank, sibling, trail_ok,
};
use crate::trail::{
    lemma_deferred_pop, lemma_deferred_push, lemma_extends_update, lemma_grid_extends_base,
    lemma_rank_decreases, lemma_rank_nonnegative, lemma_trail_pop, lemma_trail_push,
};
use crate::utils::{candidate_seq, clue_count, complete, consistent, extends, legal, solves, Cells};
use crate::utils::{get_candidates, is_consistent};
use crate::utils::{
    lemma_candidate_seq, lemma_clue_count_update, lemma_complete_board_is_its_only_extension,
    lemma_place_keeps_consistent, lemma_solution_digit_is_legal, lemma_solvable_is_consistent,
};
use vstd::prelude::*;

verus! {

/// `cell` is where the search goes on: an empty cell with the fewest candidates, and the
/// first of these.
pub open spec fn is_next_cell(b: Seq<u8>, cell: int) -> bool {
    &&& 0 <= cell < 81
    &&& b[cell] == 0
    &&& forall|j: int|
        0 <= j < 81 && #[trigger] b[j] == 0 ==> candidate_seq(b, cell).len() <= candidate_seq(
            b,
            j,
        ).len()
    &&& forall|j: int|
        0 <= j < cell && #[trigger] b[j] == 0 ==> candidate_seq(b, cell).len() < candidate_seq(
            b,
            j,
        ).len()
}

/// The cell where the search goes on from a board that has an empty cell.
pub open spec fn next_cell(b: Seq<u8>) -> int {
    choose|cell: int| is_next_cell(b, cell)
}

/// The number of empty cells.
pub open spec fn blanks(b: Seq<u8>) -> nat {
    (81 - clue_count(b)) as nat
}

/// The complete boards below a board in the order in which the search reaches them: the
/// board itself where it is complete; else those that hold the highest candidate in the next
/// cell, then those that hold the second highest, and so on down to the lowest.
pub open spec fn search_order(b: Seq<u8>) -> Seq<Seq<u8>>
    decreases blanks(b), 1int, 0int,
{
    if complete(b) {
        seq![b]
    } else {
        branch_order(b, next_cell(b), candidate_seq(b, next_cell(b)))
    }
}

/// The complete boards below a board that hold one of `options` in the empty cell `cell`, in
/// the order in which the search reaches them: the last option first.
pub open spec fn branch_order(b: Seq<u8>, cell: int, options: Seq<u8>) -> Seq<Seq<u8>>
    decreases blanks(b), 0int, options.len(),
    when b.len() == 81 && 0 <= cell < 81 && b[cell] == 0 && forall|k: int|
        0 <= k < options.len() ==> #[trigger] options[k] != 0
{
    if options.len() == 0 {
        Seq::empty()
    } else {
        proof {
            assert(options[options.len() - 1] != 0);
            lemma_clue_count_update(b, cell, options.last());
            lemma_clue_count_update(b.update(cell, options.last()), cell, 0);
        }
        search_order(b.update(cell, options.last())) + branch_order(b, cell, options.drop_last())
    }
}

/// Among the first `n` cells, where one of them is empty, one is the empty cell with the
/// fewest candidates, and the first of these.
proof fn lemma_least_cell(b: Seq<u8>, n: int) -> (cell: int)
    requires
        0 <= n <= 81,
        exists|i: int| 0 <= i < n && #[trigger] b[i] == 0,
    ensures
        0 <= cell < n,
        b[cell] == 0,
        forall|j: int|
            0 <= j < n && #[trigger] b[j] == 0 ==> candidate_seq(b, cell).len() <= candidate_seq(
                b,
                j,
            ).len(),
        forall|j: int|
            0 <= j < cell && #[trigger] b[j] == 0 ==> candidate_seq(b, cell).len() < candidate_seq(
                b,
                j,
            ).len(),
    decreases n,
{
    if exists|i: int| 0 <= i < n - 1 && #[trigger] b[i] == 0 {
        let before = lemma_least_cell(b, n - 1);
        if b[n - 1] == 0 && candidate_seq(b, n - 1).len() < candidate_seq(b, before).len() {
            n - 1
        } else {
            before
        }
    } else {
        let i = choose|i: int| 0 <= i < n && #[trigger] b[i] == 0;
        assert(i == n - 1);
        n - 1
    }
}

/// A board with an empty cell has a next cell.
pub proof fn lemma_next_cell_exists(b: Seq<u8>)
    requires
        !complete(b),
    ensures
        is_next_cell(b, next_cell(b)),
{
    let cell = lemma_least_cell(b, 81);
    assert(is_next_cell(b, cell));
}

/// The search order of a valid board names each solution of the board once, and nothing else.
pub proof fn lemma_search_order_lists_solutions(b: Seq<u8>)
    requires
        consistent(b),
    ensures
        lists_solutions(search_order(b), b),
    decreases blanks(b), 1int, 0int,
{
    if complete(b) {
        assert(solves(b, b));
        assert(search_order(b)[0] == b);
        assert forall|s: Seq<u8>| #[trigger] solves(s, b) implies search_order(b).contains(s) by {
            lemma_complete_board_is_its_only_extension(s, b);
        }
    } else {
        lemma_next_cell_exists(b);
        let cell = next_cell(b);
        let all = candidate_seq(b, cell);
        lemma_candidate_seq(b, cell);
        lemma_branch_order_lists_solutions(b, cell, all);
        assert forall|s: Seq<u8>| #[trigger] solves(s, b) implies search_order(b).contains(s) by {
            lemma_solution_digit_is_legal(s, b, cell);
        }
    }
}

/// The search order of a branch names once each solution that holds one of the options in
/// the cell, and nothing else.
pub proof fn lemma_branch_order_lists_solutions(b: Seq<u8>, cell: int, options: Seq<u8>)
    requires
        consistent(b),
        0 <= cell < 81,
        b[cell] == 0,
        forall|k: int|
            0 <= k < options.len() ==> 1 <= #[trigger] options[k] <= 9 && legal(b, cell, options[k]),
        forall|j: int, k: int| 0 <= j < k < options.len() ==> options[j] < options[k],
    ensures
        branch_order(b, cell, options).no_duplicates(),
        forall|k: int|
            0 <= k < branch_order(b, cell, options).len() ==> {
                let x = #[trigger] branch_order(b, cell, options)[k];
                solves(x, b) && options.contains(x[cell])
            },
        forall|s: Seq<u8>| #[trigger]
            solves(s, b) && options.contains(s[cell]) ==> branch_order(b, cell, options).contains(s),
    decreases blanks(b), 0int, options.len(),
{
    let whole = branch_order(b, cell, options);
    if options.len() == 0 {
    } else {
        let n = options.len() as int;
        let v = options.last();
        let rest = options.drop_last();
        let b2 = b.update(cell, v);
        assert(options[n - 1] == v);
        lemma_place_keeps_consistent(b, cell, v);
        lemma_clue_count_update(b, cell, v);
        lemma_clue_count_update(b2, cell, 0);
        lemma_search_order_lists_solutions(b2);
        lemma_branch_order_lists_solutions(b, cell, rest);
        let first = search_order(b2);
        let second = branch_order(b, cell, rest);
        assert(whole == first + second);
        assert forall|k: int| 0 <= k < first.len() implies solves(#[trigger] first[k], b) && first[k][cell]
            == v by {
            assert(solves(first[k], b2));
            lemma_extends_update(first[k], b, cell, v);
        }
        assert forall|k: int| 0 <= k < second.len() implies solves(#[trigger] second[k], b)
            && second[k][cell] < v by {
            assert(rest.contains(second[k][cell]));
            let m = choose|m: int| 0 <= m < rest.len() && rest[m] == second[k][cell];
            assert(options[m] == rest[m]);
        }
        assert forall|k: int| 0 <= k < whole.len() implies {
            let x = #[trigger] whole[k];
            solves(x, b) && options.contains(x[cell])
        } by {
            if k < first.len() {
                assert(whole[k] == first[k]);
            } else {
                let x = second[k - first.len()];
                assert(whole[k] == x);
                assert(rest.contains(x[cell]));
                let m = choose|m: int| 0 <= m < rest.len() && rest[m] == x[cell];
                assert(options[m] == x[cell]);
            }
        }
        assert forall|i: int, j: int| 0 <= i < whole.len() && 0 <= j < whole.len() && i != j implies whole[i]
            != whole[j] by {
            if i < first.len() && j < first.len() {
                assert(first[i] != first[j]);
            } else if i >= first.len() && j >= first.len() {
                assert(second[i - first.len()] != second[j - first.len()]);
            } else if i < first.len() {
                assert(first[i][cell] == v);
                assert(second[j - first.len()][cell] < v);
            } else {
                assert(first[j][cell] == v);
                assert(second[i - first.len()][cell] < v);
            }
        }
        assert forall|s: Seq<u8>| #[trigger] solves(s, b) && options.contains(s[cell]) implies whole.contains(
            s,
        ) by {
            let m = choose|m: int| 0 <= m < options.len() && options[m] == s[cell];
            if m == n - 1 {
                lemma_extends_update(s, b, cell, v);
                assert(solves(s, b2));
                assert(first.contains(s));
                let k = choose|k: int| 0 <= k < first.len() && first[k] == s;
                assert(whole[k] == s);
            } else {
                assert(rest[m] == s[cell]);
                assert(rest.contains(s[cell]));
                assert(second.contains(s));
                let k = choose|k: int| 0 <= k < second.len() && second[k] == s;
                assert(whole[first.len() + k] == s);
            }
        }
    }
}

/// One frame of the decision trail: the cell that was filled, and the candidates for it that
/// are still untried, ascending. The candidate now on the board is not among them.
struct Step {
    index: usize,
    candidates: Vec<u8>,
}

/// The cells that the frames filled.
spec fn cells_of(steps: Seq<Step>) -> Seq<int> {
    Seq::new(steps.len(), |i: int| steps[i].index as int)
}

/// The untried candidates of the frames.
spec fn rests_of(steps: Seq<Step>) -> Seq<Seq<u8>> {
    Seq::new(steps.len(), |i: int| steps[i].candidates@)
}

/// How many candidates each frame has left.
spec fn counts_of(steps: Seq<Step>) -> Seq<int> {
    Seq::new(steps.len(), |i: int| steps[i].candidates@.len() as int)
}

/// Strictly ascending.
spec fn ascending(v: Seq<u8>) -> bool {
    forall|j: int, k: int| 0 <= j < k < v.len() ==> v[j] < v[k]
}

/// The trail is sound, and each frame holds at most nine candidates in ascending order.
spec fn steps_ok(steps: Seq<Step>, grid: Seq<u8>) -> bool {
    &&& trail_ok(cells_of(steps), rests_of(steps), grid)
    &&& forall|i: int|
        0 <= i < steps.len() ==> ascending((#[trigger] steps[i]).candidates@)
            && steps[i].candidates@.len() <= 9
}

/// The state of a search that is about to go deeper: every solution of `start` is found or
/// still to be visited, and nothing found is still to be visited.
spec fn searching(start: Seq<u8>, found: Seq<Cells>, steps: Seq<Step>, grid: Seq<u8>) -> bool {
    &&& steps_ok(steps, grid)
    &&& base(cells_of(steps), grid, 0) == start
    &&& all_solve(found, start)
    &&& all_distinct(found)
    &&& forall|s: Seq<u8>| #[trigger]
        solves(s, start) ==> recorded(found, s) || pending(s, cells_of(steps), rests_of(steps), grid)
    &&& forall|k: int|
        0 <= k < found.len() ==> !pending(
            (#[trigger] found[k])@,
            cells_of(steps),
            rests_of(steps),
            grid,
        )
}

/// The state of a search that is done with the current board: every solution of `start` is
/// found or lies in an untried branch, and nothing found lies in an untried branch.
spec fn retreating(start: Seq<u8>, found: Seq<Cells>, steps: Seq<Step>, grid: Seq<u8>) -> bool {
    &&& steps_ok(steps, grid)
    &&& base(cells_of(steps), grid, 0) == start
    &&& all_solve(found, start)
    &&& all_distinct(found)
    &&& forall|s: Seq<u8>| #[trigger]
        solves(s, start) ==> recorded(found, s) || deferred(s, cells_of(steps), rests_of(steps), grid)
    &&& forall|k: int|
        0 <= k < found.len() ==> !deferred(
            (#[trigger] found[k])@,
            cells_of(steps),
            rests_of(steps),
            grid,
        )
}

/// The measure of a trail is never negative.
proof fn lemma_rank_of_steps(steps: Seq<Step>, grid: Seq<u8>)
    requires
        steps_ok(steps, grid),
    ensures
        digits_ok(counts_of(steps)),
        0 <= rank(counts_of(steps)),
{
    assert forall|i: int| 0 <= i < counts_of(steps).len() implies 0 <= #[trigger] counts_of(steps)[i]
        <= 10 by {
        assert(steps[i].candidates@.len() <= 9);
    }
    lemma_rank_nonnegative(counts_of(steps), 81);
}

/// Going deeper: a new frame fills an empty cell with the last of its candidates.
proof fn lemma_descend(
    start: Seq<u8>,
    found: Seq<Cells>,
    steps: Seq<Step>,
    grid: Seq<u8>,
    step: Step,
    candidate: u8,
)
    requires
        searching(start, found, steps, grid),
        step.index < 81,
        grid[step.index as int] == 0,
        candidate_seq(grid, step.index as int) == step.candidates@.push(candidate),
    ensures
        searching(start, found, steps.push(step), grid.update(step.index as int, candidate)),
        rank(counts_of(steps.push(step))) < rank(counts_of(steps)),
{
    let cell = step.index as int;
    let rest = step.candidates@;
    let all = candidate_seq(grid, cell);
    let cells = cells_of(steps);
    let rests = rests_of(steps);
    let steps2 = steps.push(step);
    let grid2 = grid.update(cell, candidate);
    lemma_candidate_seq(grid, cell);
    assert(all[all.len() - 1] == candidate);
    assert forall|k: int| 0 <= k < rest.len() implies 1 <= #[trigger] rest[k] <= 9 && rest[k]
        != candidate && legal(grid, cell, rest[k]) by {
        assert(all[k] == rest[k]);
    }
    assert forall|j: int, k: int| 0 <= j < k < rest.len() implies rest[j] < rest[k] by {
        assert(all[j] == rest[j] && all[k] == rest[k]);
    }
    lemma_trail_push(cells, rests, grid, cell, candidate, rest);
    assert(cells_of(steps2) =~= cells.push(cell));
    assert(rests_of(steps2) =~= rests.push(rest));
    assert(base(cells.push(cell), grid2, 0) == base(cells, grid, 0));
    assert forall|i: int| 0 <= i < steps2.len() implies ascending((#[trigger] steps2[i]).candidates@)
        && steps2[i].candidates@.len() <= 9 by {
        if i < steps.len() {
            assert(steps2[i] == steps[i]);
        }
    }
    assert forall|s: Seq<u8>| #[trigger] solves(s, start) implies recorded(found, s) || pending(
        s,
        cells_of(steps2),
        rests_of(steps2),
        grid2,
    ) by {
        lemma_deferred_push(s, cells, rests, grid, cell, candidate, rest);
        lemma_extends_update(s, grid, cell, candidate);
        if !recorded(found, s) && !deferred(s, cells, rests, grid) {
            assert(extends(s, grid));
            lemma_solution_digit_is_legal(s, grid, cell);
            assert(all.contains(s[cell]));
            let k = choose|k: int| 0 <= k < all.len() && all[k] == s[cell];
            if k < rest.len() {
                assert(rest[k] == s[cell]);
                assert(in_branches(s, grid, cell, rest));
            }
        }
    }
    assert forall|k: int| 0 <= k < found.len() implies !pending(
        (#[trigger] found[k])@,
        cells_of(steps2),
        rests_of(steps2),
        grid2,
    ) by {
        lemma_deferred_push(found[k]@, cells, rests, grid, cell, candidate, rest);
        lemma_extends_update(found[k]@, grid, cell, candidate);
    }
    lemma_rank_of_steps(steps, grid);
    lemma_rank_of_steps(steps2, grid2);
    let n = steps.len() as int;
    assert(digit(counts_of(steps2), n) < digit(counts_of(steps), n));
    assert forall|i: int| 0 <= i < n implies digit(counts_of(steps2), i) == digit(
        counts_of(steps),
        i,
    ) by {
        assert(steps2[i] == steps[i]);
    }
    lemma_rank_decreases(counts_of(steps2), counts_of(steps), n, 81);
}

/// A dead end: an empty cell without a candidate leaves nothing to visit below the current board.
proof fn lemma_dead_end(start: Seq<u8>, found: Seq<Cells>, steps: Seq<Step>, grid: Seq<u8>, cell: int)
    requires
        searching(start, found, steps, grid),
        0 <= cell < 81,
        grid[cell] == 0,
        candidate_seq(grid, cell).len() == 0,
    ensures
        retreating(start, found, steps, grid),
{
    lemma_candidate_seq(grid, cell);
    assert forall|s: Seq<u8>| #[trigger] solves(s, start) implies recorded(found, s) || deferred(
        s,
        cells_of(steps),
        rests_of(steps),
        grid,
    ) by {
        if extends(s, grid) {
            lemma_solution_digit_is_legal(s, grid, cell);
            assert(candidate_seq(grid, cell).contains(s[cell]));
        }
    }
}

/// A full board: the current board is a new solution, and the only one below itself.
proof fn lemma_record(start: Seq<u8>, found: Seq<Cells>, steps: Seq<Step>, grid: Cells)
    requires
        searching(start, found, steps, grid@),
        complete(grid@),
    ensures
        retreating(start, found.push(grid), steps, grid@),
{
    let cells = cells_of(steps);
    let rests = rests_of(steps);
    let found2 = found.push(grid);
    assert forall|k: int| 0 <= k < cells.len() implies 0 <= #[trigger] cells[k] < 81 by {
        assert(frame_ok(cells, rests, grid@, k));
    }
    lemma_grid_extends_base(cells, grid@, 0);
    assert(solves(grid@, start));
    assert forall|k: int| 0 <= k < found2.len() implies solves((#[trigger] found2[k])@, start) by {
        if k < found.len() {
            assert(found2[k] == found[k]);
        }
    }
    assert forall|j: int, k: int| 0 <= j < k < found2.len() implies (#[trigger] found2[j])@ != (
    #[trigger] found2[k])@ by {
        assert(found2[j] == found[j]);
        if k < found.len() {
            assert(found2[k] == found[k]);
        } else {
            assert(!pending(found[j]@, cells, rests, grid@));
            assert(extends(grid@, grid@));
        }
    }
    assert forall|s: Seq<u8>| #[trigger] solves(s, start) implies recorded(found2, s) || deferred(
        s,
        cells,
        rests,
        grid@,
    ) by {
        if recorded(found, s) {
            let k = choose|k: int| 0 <= k < found.len() && (#[trigger] found[k])@ == s;
            assert(found2[k]@ == s);
        } else if extends(s, grid@) {
            lemma_complete_board_is_its_only_extension(s, grid@);
            assert(found2[found.len() as int]@ == s);
        }
    }
    assert forall|k: int| 0 <= k < found2.len() implies !deferred(
        (#[trigger] found2[k])@,
        cells,
        rests,
        grid@,
    ) by {
        if k < found.len() {
            assert(found2[k] == found[k]);
            assert(!pending(found[k]@, cells, rests, grid@));
        } else {
            assert forall|i: int| 0 <= i < cells.len() implies !sibling(
                grid@,
                cells,
                rests,
                grid@,
                i,
            ) by {
                assert(frame_ok(cells, rests, grid@, i));
            }
        }
    }
}

/// Coming back: a trail whose board is done, and a trail that visits exactly the untried
/// branches of the first.
proof fn lemma_resume(
    start: Seq<u8>,
    found: Seq<Cells>,
    steps: Seq<Step>,
    grid: Seq<u8>,
    steps2: Seq<Step>,
    grid2: Seq<u8>,
)
    requires
        retreating(start, found, steps, grid),
        steps_ok(steps2, grid2),
        base(cells_of(steps2), grid2, 0) == base(cells_of(steps), grid, 0),
        forall|s: Seq<u8>|
            #![trigger pending(s, cells_of(steps2), rests_of(steps2), grid2)]
            #![trigger deferred(s, cells_of(steps), rests_of(steps), grid)]
            pending(s, cells_of(steps2), rests_of(steps2), grid2) <==> deferred(
                s,
                cells_of(steps),
                rests_of(steps),
                grid,
            ),
    ensures
        searching(start, found, steps2, grid2),
{
}

/// The end: a trail whose board is done and that has no untried branch has found everything.
proof fn lemma_finish(start: Seq<u8>, found: Seq<Cells>, steps: Seq<Step>, grid: Seq<u8>)
    requires
        retreating(start, found, steps, grid),
        forall|s: Seq<u8>| !#[trigger] deferred(s, cells_of(steps), rests_of(steps), grid),
    ensures
        all_solve(found, start),
        all_distinct(found),
        exhaustive(found, start),
{
}

/// The last frame moves on to its next candidate.
proof fn lemma_retry(steps: Seq<Step>, grid: Seq<u8>, step: Step, candidate: u8)
    requires
        steps_ok(steps, grid),
        0 < steps.len(),
        step.index == steps.last().index,
        steps.last().candidates@ == step.candidates@.push(candidate),
    ensures
        steps_ok(steps.drop_last().push(step), grid.update(step.index as int, candidate)),
        base(cells_of(steps.drop_last().push(step)), grid.update(step.index as int, candidate), 0)
            == base(cells_of(steps), grid, 0),
        forall|s: Seq<u8>|
            #![trigger pending(s, cells_of(steps.drop_last().push(step)), rests_of(steps.drop_last().push(step)), grid.update(step.index as int, candidate))]
            #![trigger deferred(s, cells_of(steps), rests_of(steps), grid)]
            pending(
                s,
                cells_of(steps.drop_last().push(step)),
                rests_of(steps.drop_last().push(step)),
                grid.update(step.index as int, candidate),
            ) <==> deferred(s, cells_of(steps), rests_of(steps), grid),
{
    let n = steps.len() as int;
    let cell = step.index as int;
    let all = steps.last().candidates@;
    let rest = step.candidates@;
    let cells = cells_of(steps);
    let rests = rests_of(steps);
    let steps1 = steps.drop_last();
    let cells1 = cells.drop_last();
    let rests1 = rests.drop_last();
    let grid1 = grid.update(cell, 0);
    let steps2 = steps1.push(step);
    let grid2 = grid.update(cell, candidate);
    assert(cells_of(steps1) =~= cells1);
    assert(rests_of(steps1) =~= rests1);
    assert(cells.last() == cell);
    assert(rests.last() == all);
    assert(frame_ok(cells, rests, grid, n - 1));
    assert(ascending(steps[n - 1].candidates@));
    assert(all[all.len() - 1] == candidate);
    assert(rests[n - 1][all.len() - 1] == candidate);
    lemma_trail_pop(cells, rests, grid);
    assert(base(cells, grid, n - 1) == grid1);
    assert forall|k: int| 0 <= k < rest.len() implies 1 <= #[trigger] rest[k] <= 9 && rest[k]
        != candidate && legal(grid1, cell, rest[k]) by {
        assert(rests[n - 1][k] == rest[k]);
        assert(all[k] == rest[k]);
    }
    assert forall|j: int, k: int| 0 <= j < k < rest.len() implies rest[j] < rest[k] by {
        assert(all[j] == rest[j] && all[k] == rest[k]);
    }
    lemma_trail_push(cells1, rests1, grid1, cell, candidate, rest);
    assert(grid1.update(cell, candidate) =~= grid2);
    assert(cells_of(steps2) =~= cells1.push(cell));
    assert(rests_of(steps2) =~= rests1.push(rest));
    assert(base(cells1.push(cell), grid2, 0) == base(cells1, grid1, 0));
    assert(base(cells, grid, 0) == base(cells1, grid1, 0));
    assert forall|i: int| 0 <= i < steps2.len() implies ascending((#[trigger] steps2[i]).candidates@)
        && steps2[i].candidates@.len() <= 9 by {
        if i < n - 1 {
            assert(steps2[i] == steps[i]);
        }
    }
    assert forall|s: Seq<u8>|
        #![trigger pending(s, cells_of(steps2), rests_of(steps2), grid2)]
        #![trigger deferred(s, cells, rests, grid)]
        pending(s, cells_of(steps2), rests_of(steps2), grid2) <==> deferred(s, cells, rests, grid) by {
        lemma_deferred_pop(s, cells, rests, grid);
        lemma_deferred_push(s, cells1, rests1, grid1, cell, candidate, rest);
        lemma_extends_update(s, grid1, cell, candidate);
        if all.contains(s[cell]) {
            let k = choose|k: int| 0 <= k < all.len() && all[k] == s[cell];
            if k < rest.len() {
                assert(rest[k] == s[cell]);
            }
        }
        if rest.contains(s[cell]) {
            let k = choose|k: int| 0 <= k < rest.len() && rest[k] == s[cell];
            assert(all[k] == s[cell]);
        }
    }
}

/// A trail that is as another up to its last frame, and has less left in that frame,
/// measures less.
proof fn lemma_rank_after_retry(steps: Seq<Step>, grid: Seq<u8>, steps2: Seq<Step>, grid2: Seq<u8>)
    requires
        steps_ok(steps, grid),
        steps_ok(steps2, grid2),
        0 < steps2.len() <= steps.len(),
        forall|i: int| 0 <= i < steps2.len() - 1 ==> #[trigger] steps2[i] == steps[i],
        steps2.last().candidates@.len() < steps[steps2.len() - 1].candidates@.len(),
    ensures
        0 <= rank(counts_of(steps2)) < rank(counts_of(steps)),
{
    let n = steps2.len() as int;
    lemma_rank_of_steps(steps, grid);
    lemma_rank_of_steps(steps2, grid2);
    assert(steps.len() <= 81) by {
        assert(frame_ok(cells_of(steps), rests_of(steps), grid, 0));
        lemma_clue_count_update(grid, cells_of(steps)[0], 0);
    }
    assert forall|i: int| 0 <= i < n - 1 implies digit(counts_of(steps2), i) == digit(
        counts_of(steps),
        i,
    ) by {
        assert(steps2[i] == steps[i]);
    }
    assert(digit(counts_of(steps2), n - 1) < digit(counts_of(steps), n - 1));
    lemma_rank_decreases(counts_of(steps2), counts_of(steps), n - 1, 81);
}

/// The last frame has nothing left and goes; its cell is emptied.
proof fn lemma_retreat(steps: Seq<Step>, grid: Seq<u8>)
    requires
        steps_ok(steps, grid),
        0 < steps.len(),
        steps.last().candidates@.len() == 0,
    ensures
        steps_ok(steps.drop_last(), grid.update(steps.last().index as int, 0)),
        base(cells_of(steps.drop_last()), grid.update(steps.last().index as int, 0), 0) == base(
            cells_of(steps),
            grid,
            0,
        ),
        forall|s: Seq<u8>|
            #![trigger deferred(s, cells_of(steps.drop_last()), rests_of(steps.drop_last()), grid.update(steps.last().index as int, 0))]
            #![trigger deferred(s, cells_of(steps), rests_of(steps), grid)]
            deferred(
                s,
                cells_of(steps.drop_last()),
                rests_of(steps.drop_last()),
                grid.update(steps.last().index as int, 0),
            ) <==> deferred(s, cells_of(steps), rests_of(steps), grid),
{
    let n = steps.len() as int;
    let cell = steps.last().index as int;
    let cells = cells_of(steps);
    let rests = rests_of(steps);
    let steps1 = steps.drop_last();
    let grid1 = grid.update(cell, 0);
    assert(cells_of(steps1) =~= cells.drop_last());
    assert(rests_of(steps1) =~= rests.drop_last());
    assert(cells.last() == cell);
    lemma_trail_pop(cells, rests, grid);
    assert(base(cells, grid, 0) == base(cells.drop_last(), grid1, 0));
    assert forall|i: int| 0 <= i < steps1.len() implies ascending((#[trigger] steps1[i]).candidates@)
        && steps1[i].candidates@.len() <= 9 by {
        assert(steps1[i] == steps[i]);
    }
    assert forall|s: Seq<u8>|
        #![trigger deferred(s, cells_of(steps1), rests_of(steps1), grid1)]
        #![trigger deferred(s, cells, rests, grid)]
        deferred(s, cells_of(steps1), rests_of(steps1), grid1) <==> deferred(s, cells, rests, grid) by {
        lemma_deferred_pop(s, cells, rests, grid);
    }
}

/// The boards that the frames have yet to visit, in the order of the search: those of the
/// last frame first.
spec fn later(steps: Seq<Step>, grid: Seq<u8>) -> Seq<Seq<u8>>
    decreases steps.len(),
{
    if steps.len() == 0 {
        Seq::empty()
    } else {
        let top = steps.last();
        let b = grid.update(top.index as int, 0);
        branch_order(b, top.index as int, top.candidates@) + later(steps.drop_last(), b)
    }
}

/// What was found, what lies below the current board and what the frames have yet to visit
/// make up the search order of `start`.
spec fn in_order(start: Seq<u8>, found: Seq<Cells>, steps: Seq<Step>, grid: Seq<u8>) -> bool {
    boards(found) + search_order(grid) + later(steps, grid) == search_order(start)
}

/// What was found and what the frames have yet to visit make up the search order of `start`.
spec fn in_order_back(start: Seq<u8>, found: Seq<Cells>, steps: Seq<Step>, grid: Seq<u8>) -> bool {
    boards(found) + later(steps, grid) == search_order(start)
}

/// A board has one next cell at most.
proof fn lemma_next_cell(b: Seq<u8>, cell: int)
    requires
        is_next_cell(b, cell),
    ensures
        next_cell(b) == cell,
        !complete(b),
{
    let other = next_cell(b);
    assert(is_next_cell(b, other));
    assert(b[cell] == 0);
    assert(b[other] == 0);
}

/// Going deeper keeps the order.
proof fn lemma_descend_order(
    start: Seq<u8>,
    found: Seq<Cells>,
    steps: Seq<Step>,
    grid: Seq<u8>,
    step: Step,
    candidate: u8,
)
    requires
        in_order(start, found, steps, grid),
        grid.len() == 81,
        is_next_cell(grid, step.index as int),
        candidate_seq(grid, step.index as int) == step.candidates@.push(candidate),
    ensures
        in_order(start, found, steps.push(step), grid.update(step.index as int, candidate)),
{
    let cell = step.index as int;
    let rest = step.candidates@;
    let all = candidate_seq(grid, cell);
    let steps2 = steps.push(step);
    let grid2 = grid.update(cell, candidate);
    lemma_next_cell(grid, cell);
    lemma_candidate_seq(grid, cell);
    assert(all.last() == candidate);
    assert(all.drop_last() =~= rest);
    assert(search_order(grid) == branch_order(grid, cell, all));
    assert(branch_order(grid, cell, all) == search_order(grid2) + branch_order(grid, cell, rest));
    assert(steps2.last() == step);
    assert(steps2.drop_last() =~= steps);
    assert(grid2.update(cell, 0) =~= grid);
    assert(later(steps2, grid2) == branch_order(grid, cell, rest) + later(steps, grid));
    assert(boards(found) + search_order(grid2) + later(steps2, grid2) =~= boards(found)
        + search_order(grid) + later(steps, grid));
}

/// A dead end has nothing below it.
proof fn lemma_dead_end_order(
    start: Seq<u8>,
    found: Seq<Cells>,
    steps: Seq<Step>,
    grid: Seq<u8>,
    cell: int,
)
    requires
        in_order(start, found, steps, grid),
        grid.len() == 81,
        is_next_cell(grid, cell),
        candidate_seq(grid, cell).len() == 0,
    ensures
        in_order_back(start, found, steps, grid),
{
    lemma_next_cell(grid, cell);
    assert(search_order(grid) == branch_order(grid, cell, candidate_seq(grid, cell)));
    assert(search_order(grid) =~= Seq::<Seq<u8>>::empty());
    assert(boards(found) + later(steps, grid) =~= boards(found) + search_order(grid) + later(
        steps,
        grid,
    ));
}

/// A full board is what lies below itself.
proof fn lemma_record_order(start: Seq<u8>, found: Seq<Cells>, steps: Seq<Step>, grid: Cells)
    requires
        in_order(start, found, steps, grid@),
        complete(grid@),
    ensures
        in_order_back(start, found.push(grid), steps, grid@),
{
    assert(search_order(grid@) == seq![grid@]);
    assert(boards(found.push(grid)) =~= boards(found) + seq![grid@]);
    assert(boards(found.push(grid)) + later(steps, grid@) =~= boards(found) + search_order(grid@)
        + later(steps, grid@));
}

/// The next candidate of the last frame is what the frames had to visit first.
proof fn lemma_retry_order(steps: Seq<Step>, grid: Seq<u8>, step: Step, candidate: u8)
    requires
        steps_ok(steps, grid),
        0 < steps.len(),
        step.index == steps.last().index,
        steps.last().candidates@ == step.candidates@.push(candidate),
    ensures
        search_order(grid.update(step.index as int, candidate)) + later(
            steps.drop_last().push(step),
            grid.update(step.index as int, candidate),
        ) == later(steps, grid),
{
    let n = steps.len() as int;
    let cell = step.index as int;
    let all = steps.last().candidates@;
    let rest = step.candidates@;
    let b = grid.update(cell, 0);
    let steps1 = steps.drop_last();
    let steps2 = steps1.push(step);
    let grid2 = grid.update(cell, candidate);
    assert(frame_ok(cells_of(steps), rests_of(steps), grid, n - 1));
    assert forall|k: int| 0 <= k < all.len() implies #[trigger] all[k] != 0 by {
        assert(rests_of(steps)[n - 1][k] == all[k]);
    }
    assert(all.last() == candidate);
    assert(all.drop_last() =~= rest);
    assert(b.update(cell, candidate) =~= grid2);
    assert(branch_order(b, cell, all) == search_order(grid2) + branch_order(b, cell, rest));
    assert(steps2.last() == step);
    assert(steps2.drop_last() =~= steps1);
    assert(grid2.update(cell, 0) =~= b);
    assert(later(steps2, grid2) == branch_order(b, cell, rest) + later(steps1, b));
    assert(later(steps, grid) == branch_order(b, cell, all) + later(steps1, b));
    assert(search_order(grid2) + later(steps2, grid2) =~= later(steps, grid));
}

/// A frame without a candidate has nothing to visit.
proof fn lemma_retreat_order(steps: Seq<Step>, grid: Seq<u8>)
    requires
        steps_ok(steps, grid),
        0 < steps.len(),
        steps.last().candidates@.len() == 0,
    ensures
        later(steps.drop_last(), grid.update(steps.last().index as int, 0)) == later(steps, grid),
{
    let n = steps.len() as int;
    let cell = steps.last().index as int;
    let b = grid.update(cell, 0);
    assert(frame_ok(cells_of(steps), rests_of(steps), grid, n - 1));
    assert(branch_order(b, cell, steps.last().candidates@) =~= Seq::<Seq<u8>>::empty());
    assert(later(steps, grid) =~= later(steps.drop_last(), b));
}

/// Coming back keeps the order.
proof fn lemma_resume_order(
    start: Seq<u8>,
    found: Seq<Cells>,
    steps: Seq<Step>,
    grid: Seq<u8>,
    steps2: Seq<Step>,
    grid2: Seq<u8>,
)
    requires
        in_order_back(start, found, steps, grid),
        search_order(grid2) + later(steps2, grid2) == later(steps, grid),
    ensures
        in_order(start, found, steps2, grid2),
{
    assert(boards(found) + search_order(grid2) + later(steps2, grid2) =~= boards(found) + later(
        steps,
        grid,
    ));
}

/// What was found is the beginning of the search order.
proof fn lemma_found_in_order(start: Seq<u8>, found: Seq<Cells>, steps: Seq<Step>, grid: Seq<u8>)
    requires
        in_order_back(start, found, steps, grid),
    ensures
        boards(found).is_prefix_of(search_order(start)),
        later(steps, grid).len() == 0 ==> boards(found) == search_order(start),
{
    let whole = boards(found) + later(steps, grid);
    assert(whole.subrange(0, boards(found).len() as int) =~= boards(found));
    if later(steps, grid).len() == 0 {
        assert(whole =~= boards(found));
    }
}

/// The next frame: the empty cell with the fewest candidates, the first such cell where
/// several have as few, with all its candidates; `None` when no cell is empty.
fn generate_step(grid: &Cells) -> (next: Option<Step>)
    ensures
        match next {
            None => complete(grid@),
            Some(step) => {
                &&& is_next_cell(grid@, step.index as int)
                &&& step.candidates@ == candidate_seq(grid@, step.index as int)
            },
        },
{
    let mut first_empty_cell: usize = 0;
    while first_empty_cell < 81 && grid[first_empty_cell] != 0
        invariant
            first_empty_cell <= 81,
            forall|j: int| 0 <= j < first_empty_cell ==> #[trigger] grid@[j] != 0,
        decreases 81 - first_empty_cell,
    {
        first_empty_cell += 1;
    }
    if first_empty_cell == 81 {
        return None;
    }
    let mut best_cell_index: usize = first_empty_cell;
    let mut best_cell_candidates: Vec<u8> = get_candidates(grid, best_cell_index);
    for i in (first_empty_cell + 1)..81
        invariant
            first_empty_cell <= best_cell_index < i,
            grid@[best_cell_index as int] == 0,
            best_cell_candidates@ == candidate_seq(grid@, best_cell_index as int),
            forall|j: int|
                0 <= j < i && #[trigger] grid@[j] == 0 ==> best_cell_candidates@.len()
                    <= candidate_seq(grid@, j).len(),
            forall|j: int|
                0 <= j < best_cell_index && #[trigger] grid@[j] == 0 ==> best_cell_candidates@.len()
                    < candidate_seq(grid@, j).len(),
    {
        if grid[i] == 0 {
            let candidates = get_candidates(grid, i);
            if candidates.len() < best_cell_candidates.len() {
                best_cell_index = i;
                best_cell_candidates = candidates;
            }
        }
    }
    Some(Step { index: best_cell_index, candidates: best_cell_candidates })
}

/// Frame `k` is the last that has a candidate left.
spec fn is_last_open(steps: Seq<Step>, k: int) -> bool {
    &&& 0 <= k < steps.len()
    &&& steps[k].candidates@.len() > 0
    &&& forall|j: int| k < j < steps.len() ==> (#[trigger] steps[j]).candidates@.len() == 0
}

/// One of the frames from frame `from` on filled `cell`.
spec fn filled_from(steps: Seq<Step>, from: int, cell: int) -> bool {
    exists|j: int| from <= j < steps.len() && (#[trigger] steps[j]).index == cell
}

/// The cells that the frames from `from` on filled are the cell of frame `from` and those
/// of the frames after it.
proof fn lemma_filled_from(steps: Seq<Step>, from: int, cell: int)
    requires
        0 <= from < steps.len(),
    ensures
        filled_from(steps, from, cell) <==> steps[from].index == cell || filled_from(
            steps,
            from + 1,
            cell,
        ),
{
    if filled_from(steps, from, cell) {
        let j = choose|j: int| from <= j < steps.len() && (#[trigger] steps[j]).index == cell;
        if j != from {
            assert(from + 1 <= j && steps[j].index == cell);
        }
    }
    if filled_from(steps, from + 1, cell) {
        let j = choose|j: int| from + 1 <= j < steps.len() && (#[trigger] steps[j]).index == cell;
        assert(from <= j && steps[j].index == cell);
    }
    if steps[from].index == cell {
        assert(from <= from && steps[from].index == cell);
    }
}

/// Backtracks: drops the frames that have no candidate left, emptying their cells, and moves
/// the last frame that has one on to it. `false` when no frame has a candidate left; the
/// trail is then empty.
///
/// Where frame `k` is the last with a candidate left, the trail keeps the frames before it,
/// frame `k` gives up its last candidate, that candidate stands in the cell of frame `k`,
/// the cells of the later frames are empty, and every other cell is as it was.
fn try_backtrack(grid: &mut Cells, steps: &mut Vec<Step>) -> (more: bool)
    requires
        steps_ok(old(steps)@, old(grid)@),
    ensures
        more ==> ({
            let k = final(steps)@.len() - 1;
            &&& is_last_open(old(steps)@, k)
            &&& forall|i: int| 0 <= i < k ==> #[trigger] final(steps)@[i] == old(steps)@[i]
            &&& final(steps)@[k].index == old(steps)@[k].index
            &&& final(steps)@[k].candidates@ == old(steps)@[k].candidates@.drop_last()
            &&& final(grid)@[old(steps)@[k].index as int] == old(steps)@[k].candidates@.last()
            &&& forall|c: int|
                0 <= c < 81 && c != old(steps)@[k].index ==> #[trigger] final(grid)@[c] == if filled_from(
                    old(steps)@,
                    k + 1,
                    c,
                ) {
                    0
                } else {
                    old(grid)@[c]
                }
        }),
        !more ==> forall|j: int|
            0 <= j < old(steps)@.len() ==> (#[trigger] old(steps)@[j]).candidates@.len() == 0,
        !more ==> forall|c: int|
            0 <= c < 81 ==> #[trigger] final(grid)@[c] == if filled_from(old(steps)@, 0, c) {
                0
            } else {
                old(grid)@[c]
            },
        steps_ok(final(steps)@, final(grid)@),
        base(cells_of(final(steps)@), final(grid)@, 0) == base(cells_of(old(steps)@), old(grid)@, 0),
        more ==> rank(counts_of(final(steps)@)) < rank(counts_of(old(steps)@)),
        more ==> forall|s: Seq<u8>|
            #![trigger pending(s, cells_of(final(steps)@), rests_of(final(steps)@), final(grid)@)]
            #![trigger deferred(s, cells_of(old(steps)@), rests_of(old(steps)@), old(grid)@)]
            pending(s, cells_of(final(steps)@), rests_of(final(steps)@), final(grid)@) <==> deferred(
                s,
                cells_of(old(steps)@),
                rests_of(old(steps)@),
                old(grid)@,
            ),
        !more ==> final(steps)@.len() == 0,
        !more ==> forall|s: Seq<u8>|
            !#[trigger] deferred(s, cells_of(old(steps)@), rests_of(old(steps)@), old(grid)@),
        more ==> search_order(final(grid)@) + later(final(steps)@, final(grid)@) == later(
            old(steps)@,
            old(grid)@,
        ),
        !more ==> later(old(steps)@, old(grid)@).len() == 0,
{
    let ghost steps0 = steps@;
    let ghost grid0 = grid@;
    loop
        invariant
            steps0 == old(steps)@,
            grid0 == old(grid)@,
            steps_ok(steps@, grid@),
            base(cells_of(steps@), grid@, 0) == base(cells_of(steps0), grid0, 0),
            steps@.len() <= steps0.len(),
            later(steps@, grid@) == later(steps0, grid0),
            forall|i: int| 0 <= i < steps@.len() ==> #[trigger] steps@[i] == steps0[i],
            forall|j: int|
                steps@.len() <= j < steps0.len() ==> (#[trigger] steps0[j]).candidates@.len() == 0,
            forall|c: int|
                0 <= c < 81 ==> #[trigger] grid@[c] == if filled_from(steps0, steps@.len() as int, c) {
                    0
                } else {
                    grid0[c]
                },
            steps_ok(steps0, grid0),
            forall|s: Seq<u8>|
                #![trigger deferred(s, cells_of(steps@), rests_of(steps@), grid@)]
                #![trigger deferred(s, cells_of(steps0), rests_of(steps0), grid0)]
                deferred(s, cells_of(steps@), rests_of(steps@), grid@) <==> deferred(
                    s,
                    cells_of(steps0),
                    rests_of(steps0),
                    grid0,
                ),
        decreases steps@.len(),
    {
        let ghost before = steps@;
        let ghost board = grid@;
        match steps.pop() {
            Some(mut step) => {
                let ghost full = step.candidates@;
                proof {
                    assert(step == before[before.len() - 1]);
                    assert(before[before.len() - 1] == steps0[before.len() - 1]);
                    assert(before.drop_last() =~= steps@);
                    assert(frame_ok(
                        cells_of(before),
                        rests_of(before),
                        board,
                        before.len() - 1,
                    ));
                }
                match step.candidates.pop() {
                    Some(candidate) => {
                        assert(full =~= step.candidates@.push(candidate));
                        grid[step.index] = candidate;
                        steps.push(step);
                        proof {
                            lemma_retry_order(before, board, step, candidate);
                            lemma_retry(before, board, step, candidate);
                            assert forall|i: int| 0 <= i < steps@.len() - 1 implies #[trigger] steps@[i]
                                == steps0[i] by {
                                assert(steps@[i] == before[i]);
                            }
                            assert(before[before.len() - 1] == steps0[before.len() - 1]);
                            lemma_rank_after_retry(steps0, grid0, steps@, grid@);
                        }
                        return true;
                    },
                    None => {
                        grid[step.index] = 0;
                        proof {
                            lemma_retreat_order(before, board);
                            lemma_retreat(before, board);
                            assert forall|c: int| 0 <= c < 81 implies #[trigger] grid@[c]
                                == if filled_from(steps0, steps@.len() as int, c) {
                                0
                            } else {
                                grid0[c]
                            } by {
                                lemma_filled_from(steps0, steps@.len() as int, c);
                            }
                        }
                    },
                }
            },
            None => {
                proof {
                    assert forall|s: Seq<u8>| !#[trigger] deferred(
                        s,
                        cells_of(steps0),
                        rests_of(steps0),
                        grid0,
                    ) by {
                        assert(!deferred(s, cells_of(steps@), rests_of(steps@), grid@));
                    }
                }
                return false;
            },
        }
    }
}

/// All solutions of a board, or the first one or two.
///
/// Returns distinct complete valid boards that keep every filled cell of `grid`, in the order
/// in which the search reaches them. With both flags off these are all the solutions of
/// `grid`. With `check_solvable` the search stops at the first solution; with `check_unique`
/// alone, at the second. A board that is not valid has no solution, and is not searched.
pub fn solve(grid: Cells, check_solvable: bool, check_unique: bool) -> (solutions: Vec<Cells>)
    ensures
        search_result(grid@, check_solvable, check_unique, solutions@),
        !consistent(grid@) ==> solutions@.len() == 0,
        consistent(grid@) ==> solutions@.len() == stop_limit(
            check_solvable,
            check_unique,
            search_order(grid@).len(),
        ),
        consistent(grid@) ==> boards(solutions@) == search_order(grid@).take(
            solutions@.len() as int,
        ),
{
    let mut solutions: Vec<Cells> = Vec::new();
    if !is_consistent(&grid) {
        proof {
            assert forall|s: Seq<u8>| #[trigger] solves(s, grid@) implies recorded(solutions@, s) by {
                lemma_solvable_is_consistent(s, grid@);
            }
        }
        return solutions;
    }
    let ghost start = grid@;
    let mut board: Cells = grid;
    let mut steps: Vec<Step> = Vec::new();
    proof {
        assert(cells_of(steps@) =~= Seq::<int>::empty());
        assert(rests_of(steps@) =~= Seq::<Seq<u8>>::empty());
        assert forall|s: Seq<u8>| #[trigger] solves(s, start) implies pending(
            s,
            cells_of(steps@),
            rests_of(steps@),
            board@,
        ) by {}
        assert(boards(solutions@) + search_order(board@) + later(steps@, board@) =~= search_order(
            start,
        ));
    }
    loop
        invariant_except_break
            searching(start, solutions@, steps@, board@),
            in_order(start, solutions@, steps@, board@),
            check_solvable ==> solutions@.len() == 0,
            check_unique ==> solutions@.len() <= 1,
        ensures
            search_result(start, check_solvable, check_unique, solutions@),
            boards(solutions@).is_prefix_of(search_order(start)),
        decreases rank(counts_of(steps@)),
    {
        proof {
            lemma_rank_of_steps(steps@, board@);
        }
        let ghost trail = steps@;
        let ghost before = board@;
        match generate_step(&board) {
            Some(mut step) => {
                let ghost full = step.candidates@;
                match step.candidates.pop() {
                    Some(candidate) => {
                        assert(full =~= step.candidates@.push(candidate));
                        board[step.index] = candidate;
                        steps.push(step);
                        proof {
                            lemma_descend_order(start, solutions@, trail, before, step, candidate);
                            lemma_descend(start, solutions@, trail, before, step, candidate);
                        }
                    },
                    None => {
                        proof {
                            lemma_dead_end_order(
                                start,
                                solutions@,
                                trail,
                                before,
                                step.index as int,
                            );
                            lemma_dead_end(start, solutions@, trail, before, step.index as int);
                            lemma_found_in_order(start, solutions@, trail, before);
                        }
                        if !try_backtrack(&mut board, &mut steps) {
                            proof {
                                lemma_finish(start, solutions@, trail, before);
                            }
                            break ;
                        }
                        proof {
                            lemma_resume_order(start, solutions@, trail, before, steps@, board@);
                            lemma_resume(start, solutions@, trail, before, steps@, board@);
                        }
                    },
                }
            },
            None => {
                proof {
                    lemma_record_order(start, solutions@, trail, board);
                    lemma_record(start, solutions@, trail, board);
                    lemma_found_in_order(start, solutions@.push(board), trail, before);
                }
                solutions.push(board);
                if check_solvable {
                    break ;
                }
                if check_unique && solutions.len() > 1 {
                    break ;
                }
                if !try_backtrack(&mut board, &mut steps) {
                    proof {
                        lemma_finish(start, solutions@, trail, before);
                    }
                    break ;
                }
                proof {
                    lemma_resume_order(start, solutions@, trail, before, steps@, board@);
                    lemma_resume(start, solutions@, trail, before, steps@, board@);
                }
            },
        }
        proof {
            lemma_rank_of_steps(steps@, board@);
        }
    }
    proof {
        lemma_search_order_lists_solutions(start);
        lemma_search_returns_first(
            start,
            check_solvable,
            check_unique,
            solutions@,
            search_order(start),
        );
    }
    solutions
}

} // verus!
