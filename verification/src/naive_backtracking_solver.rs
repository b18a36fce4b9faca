//! The baseline search: iterative backtracking that fills the empty cells strictly in
//! ascending order of their index. It finds what the heuristic search finds, on a larger
//! search tree.

use crate::search::{
    all_distinct, all_solve, boards, exhaustive, lists_solutions, recorded, search_result,
    stop_limit,
};
use crate::search::lemma_search_returns_first;
use crate::trail::{base, deferred, digit, digits_ok, frame_ok, in_branches, rank, sibling, trail_ok};
use crate::trail::{
    lemma_deferred_pop, lemma_deferred_push, lemma_extends_update, lemma_grid_extends_base,
    lemma_rank_decreases, lemma_rank_monotone, lemma_rank_nonnegative, lemma_trail_pop,
    lemma_trail_push,
};
use crate::utils::{complete, consistent, extends, legal, solves, Cells};
use crate::utils::{is_consistent, validate_candidate};
use crate::utils::{
    lemma_clue_count_update, lemma_complete_board_is_its_only_extension,
    lemma_place_keeps_consistent, lemma_solution_digit_is_legal, lemma_solvable_is_consistent,
};
use vstd::prelude::*;

verus! {

/// The complete boards below a board in the order in which the search reaches them: ordered
/// by the digit in the first empty cell, the lowest first; where that is the same, by the
/// digit in the second empty cell; and so on. Each digit is legal where it is placed.
pub open spec fn search_order(b: Seq<u8>) -> Seq<Seq<u8>> {
    search_order_from(b, 0)
}

/// The complete boards below a board in search order, where the cells before `from` are
/// filled.
pub open spec fn search_order_from(b: Seq<u8>, from: int) -> Seq<Seq<u8>>
    decreases 81 - from, 10int,
{
    if from >= 81 {
        seq![b]
    } else if b[from] != 0 {
        search_order_from(b, from + 1)
    } else {
        digit_order(b, from, 1)
    }
}

/// The complete boards below a board in search order that hold a digit from `least` up in
/// the empty cell `cell`, where the cells before `cell` are filled.
pub open spec fn digit_order(b: Seq<u8>, cell: int, least: int) -> Seq<Seq<u8>>
    decreases 81 - cell, 10 - least,
{
    if least > 9 || cell >= 81 {
        Seq::empty()
    } else if legal(b, cell, least as u8) {
        search_order_from(b.update(cell, least as u8), cell + 1) + digit_order(b, cell, least + 1)
    } else {
        digit_order(b, cell, least + 1)
    }
}

/// The search order of a valid board names each solution of the board once, and nothing else.
pub proof fn lemma_search_order_lists_solutions(b: Seq<u8>)
    requires
        consistent(b),
    ensures
        lists_solutions(search_order(b), b),
{
    lemma_search_order_from_lists_solutions(b, 0);
}

/// The search order from a cell names each solution of the board once, and nothing else.
pub proof fn lemma_search_order_from_lists_solutions(b: Seq<u8>, from: int)
    requires
        consistent(b),
        0 <= from <= 81,
        forall|c: int| 0 <= c < from ==> #[trigger] b[c] != 0,
    ensures
        lists_solutions(search_order_from(b, from), b),
    decreases 81 - from, 10int,
{
    let order = search_order_from(b, from);
    if from >= 81 {
        assert(complete(b));
        assert(solves(b, b));
        assert(order[0] == b);
        assert forall|s: Seq<u8>| #[trigger] solves(s, b) implies order.contains(s) by {
            lemma_complete_board_is_its_only_extension(s, b);
        }
    } else if b[from] != 0 {
        assert forall|c: int| 0 <= c < from + 1 implies #[trigger] b[c] != 0 by {}
        lemma_search_order_from_lists_solutions(b, from + 1);
    } else {
        lemma_digit_order_lists_solutions(b, from, 1);
        assert forall|s: Seq<u8>| #[trigger] solves(s, b) implies order.contains(s) by {
            assert(s[from] != 0);
        }
    }
}

/// The search order of the digits from `least` up names once each solution that holds such a
/// digit in the cell, and nothing else.
pub proof fn lemma_digit_order_lists_solutions(b: Seq<u8>, cell: int, least: int)
    requires
        consistent(b),
        0 <= cell < 81,
        b[cell] == 0,
        forall|c: int| 0 <= c < cell ==> #[trigger] b[c] != 0,
        1 <= least <= 10,
    ensures
        digit_order(b, cell, least).no_duplicates(),
        forall|k: int|
            0 <= k < digit_order(b, cell, least).len() ==> {
                let x = #[trigger] digit_order(b, cell, least)[k];
                solves(x, b) && x[cell] >= least
            },
        forall|s: Seq<u8>| #[trigger]
            solves(s, b) && s[cell] >= least ==> digit_order(b, cell, least).contains(s),
    decreases 81 - cell, 10 - least,
{
    let whole = digit_order(b, cell, least);
    if least > 9 {
        assert forall|s: Seq<u8>| #[trigger] solves(s, b) && s[cell] >= least implies whole.contains(
            s,
        ) by {
            assert(s[cell] <= 9);
        }
    } else if legal(b, cell, least as u8) {
        let v = least as u8;
        let b2 = b.update(cell, v);
        lemma_place_keeps_consistent(b, cell, v);
        assert forall|c: int| 0 <= c < cell + 1 implies #[trigger] b2[c] != 0 by {
            if c < cell {
                assert(b[c] != 0);
            }
        }
        lemma_search_order_from_lists_solutions(b2, cell + 1);
        lemma_digit_order_lists_solutions(b, cell, least + 1);
        let first = search_order_from(b2, cell + 1);
        let second = digit_order(b, cell, least + 1);
        assert(whole == first + second);
        assert forall|k: int| 0 <= k < first.len() implies solves(#[trigger] first[k], b) && first[k][cell]
            == v by {
            assert(solves(first[k], b2));
            lemma_extends_update(first[k], b, cell, v);
        }
        assert forall|k: int| 0 <= k < whole.len() implies {
            let x = #[trigger] whole[k];
            solves(x, b) && x[cell] >= least
        } by {
            if k < first.len() {
                assert(whole[k] == first[k]);
            } else {
                assert(whole[k] == second[k - first.len()]);
            }
        }
        assert forall|i: int, j: int| 0 <= i < whole.len() && 0 <= j < whole.len() && i != j implies whole[i]
            != whole[j] by {
            if i < first.len() && j < first.len() {
                assert(first[i] != first[j]);
            } else if i >= first.len() && j >= first.len() {
                assert(second[i - first.len()] != second[j - first.len()]);
            } else if i < first.len() {
                assert(first[i][cell] == v);
                assert(second[j - first.len()][cell] >= least + 1);
            } else {
                assert(first[j][cell] == v);
                assert(second[i - first.len()][cell] >= least + 1);
            }
        }
        assert forall|s: Seq<u8>| #[trigger] solves(s, b) && s[cell] >= least implies whole.contains(
            s,
        ) by {
            if s[cell] == v {
                lemma_extends_update(s, b, cell, v);
                assert(solves(s, b2));
                assert(first.contains(s));
                let k = choose|k: int| 0 <= k < first.len() && first[k] == s;
                assert(whole[k] == s);
            } else {
                assert(second.contains(s));
                let k = choose|k: int| 0 <= k < second.len() && second[k] == s;
                assert(whole[first.len() + k] == s);
            }
        }
    } else {
        lemma_digit_order_lists_solutions(b, cell, least + 1);
        assert forall|s: Seq<u8>| #[trigger] solves(s, b) && s[cell] >= least implies whole.contains(
            s,
        ) by {
            lemma_solution_digit_is_legal(s, b, cell);
        }
    }
}

/// One frame of the decision trail: the cell that was filled, and the digit that fills it. The
/// digits above it that are legal for the cell are still untried.
struct Step {
    index: usize,
    value: u8,
}

/// The legal digits for `cell` among `1..=n` that are greater than `v`, ascending.
spec fn above_upto(b: Seq<u8>, cell: int, v: u8, n: nat) -> Seq<u8>
    decreases n,
{
    if n == 0 {
        Seq::empty()
    } else if v < n && legal(b, cell, n as u8) {
        above_upto(b, cell, v, (n - 1) as nat).push(n as u8)
    } else {
        above_upto(b, cell, v, (n - 1) as nat)
    }
}

/// The legal digits for `cell` that are greater than `v`, ascending.
spec fn above(b: Seq<u8>, cell: int, v: u8) -> Seq<u8> {
    above_upto(b, cell, v, 9)
}

/// The cells that the frames filled.
spec fn cells_of(steps: Seq<Step>) -> Seq<int> {
    Seq::new(steps.len(), |i: int| steps[i].index as int)
}

/// The untried digits of the frames.
spec fn rests_of(steps: Seq<Step>, grid: Seq<u8>) -> Seq<Seq<u8>> {
    Seq::new(
        steps.len(),
        |i: int| above(base(cells_of(steps), grid, i), steps[i].index as int, steps[i].value),
    )
}

/// The places of the measure: for each frame how far its digit is from the end, then how
/// far the digit to try next at the current cell is.
spec fn places_of(steps: Seq<Step>, initial_value: u8) -> Seq<int> {
    Seq::new(
        steps.len() + 1,
        |i: int|
            if i < steps.len() {
                10 - steps[i].value
            } else {
                10 - initial_value
            },
    )
}

/// `s` lies ahead: it keeps the current board and, where the current cell is empty, holds
/// there a digit that is still to be tried.
spec fn ahead(s: Seq<u8>, grid: Seq<u8>, index: int, initial_value: u8) -> bool {
    extends(s, grid) && (0 <= index < 81 && grid[index] == 0 ==> s[index] >= initial_value)
}

/// The trail is sound, its frames fill cells before `index` in ascending order, and each
/// frame's digit stands on the board.
spec fn steps_ok(steps: Seq<Step>, grid: Seq<u8>, index: int) -> bool {
    &&& trail_ok(cells_of(steps), rests_of(steps, grid), grid)
    &&& index <= 81
    &&& forall|c: int| 0 <= c < index ==> #[trigger] grid[c] != 0
    &&& forall|i: int|
        0 <= i < steps.len() ==> (#[trigger] steps[i]).index < index && 1 <= steps[i].value <= 9
            && grid[steps[i].index as int] == steps[i].value
    &&& forall|i: int, j: int|
        0 <= i < j < steps.len() ==> (#[trigger] steps[i]).index < (#[trigger] steps[j]).index
}

/// The state of a search that stands at cell `index`: every solution of `start` is found,
/// lies ahead or lies in an untried branch; nothing found does.
spec fn searching(
    start: Seq<u8>,
    found: Seq<Cells>,
    steps: Seq<Step>,
    grid: Seq<u8>,
    index: int,
    initial_value: u8,
) -> bool {
    &&& steps_ok(steps, grid, index)
    &&& 1 <= initial_value <= 10
    &&& (initial_value > 1 ==> index < 81 && grid[index] == 0)
    &&& base(cells_of(steps), grid, 0) == start
    &&& all_solve(found, start)
    &&& all_distinct(found)
    &&& forall|s: Seq<u8>| #[trigger]
        solves(s, start) ==> recorded(found, s) || ahead(s, grid, index, initial_value) || deferred(
            s,
            cells_of(steps),
            rests_of(steps, grid),
            grid,
        )
    &&& forall|k: int|
        0 <= k < found.len() ==> !ahead((#[trigger] found[k])@, grid, index, initial_value)
            && !deferred(found[k]@, cells_of(steps), rests_of(steps, grid), grid)
}

/// The state of a search that is done with the current board: every solution of `start` is
/// found or lies in an untried branch, and nothing found lies in an untried branch.
spec fn retreating(start: Seq<u8>, found: Seq<Cells>, steps: Seq<Step>, grid: Seq<u8>, index: int) -> bool {
    &&& steps_ok(steps, grid, index)
    &&& base(cells_of(steps), grid, 0) == start
    &&& all_solve(found, start)
    &&& all_distinct(found)
    &&& forall|s: Seq<u8>| #[trigger]
        solves(s, start) ==> recorded(found, s) || deferred(
            s,
            cells_of(steps),
            rests_of(steps, grid),
            grid,
        )
    &&& forall|k: int|
        0 <= k < found.len() ==> !deferred(
            (#[trigger] found[k])@,
            cells_of(steps),
            rests_of(steps, grid),
            grid,
        )
}

/// What `above_upto` holds: exactly the legal digits of `1..=n` above `v`.
proof fn lemma_above_upto(b: Seq<u8>, cell: int, v: u8, n: nat)
    requires
        n <= 9,
    ensures
        forall|k: int|
            0 <= k < above_upto(b, cell, v, n).len() ==> {
                let x = #[trigger] above_upto(b, cell, v, n)[k];
                v < x <= n && legal(b, cell, x)
            },
        forall|x: u8| v < x <= n && legal(b, cell, x) ==> above_upto(b, cell, v, n).contains(x),
    decreases n,
{
    if n > 0 {
        let prev = above_upto(b, cell, v, (n - 1) as nat);
        let cur = above_upto(b, cell, v, n);
        lemma_above_upto(b, cell, v, (n - 1) as nat);
        assert forall|x: u8| v < x <= n && legal(b, cell, x) implies cur.contains(x) by {
            if x == n {
                assert(cur[cur.len() - 1] == x);
            } else {
                assert(prev.contains(x));
                let k = choose|k: int| 0 <= k < prev.len() && prev[k] == x;
                assert(cur[k] == x);
            }
        }
    }
}

/// What `above` holds: exactly the legal digits above `v`.
proof fn lemma_above(b: Seq<u8>, cell: int, v: u8)
    ensures
        forall|k: int|
            0 <= k < above(b, cell, v).len() ==> {
                let x = #[trigger] above(b, cell, v)[k];
                v < x <= 9 && legal(b, cell, x)
            },
        forall|x: u8| v < x <= 9 && legal(b, cell, x) ==> above(b, cell, v).contains(x),
{
    lemma_above_upto(b, cell, v, 9);
}

/// The measure of a trail is never negative, and the trail is no longer than the board.
proof fn lemma_rank_of_steps(steps: Seq<Step>, grid: Seq<u8>, index: int, initial_value: u8)
    requires
        steps_ok(steps, grid, index),
        1 <= initial_value <= 10,
    ensures
        digits_ok(places_of(steps, initial_value)),
        0 <= rank(places_of(steps, initial_value)),
        steps.len() <= 81,
{
    let places = places_of(steps, initial_value);
    assert forall|i: int| 0 <= i < places.len() implies 0 <= #[trigger] places[i] <= 10 by {
        if i < steps.len() {
            assert(1 <= steps[i].value <= 9);
        }
    }
    lemma_rank_nonnegative(places, 81);
    lemma_clue_count_update(grid, 0, 0);
}

/// The cells of the frames lie on the board.
proof fn lemma_cells_in_range(steps: Seq<Step>, grid: Seq<u8>, index: int)
    requires
        steps_ok(steps, grid, index),
    ensures
        forall|k: int| 0 <= k < cells_of(steps).len() ==> 0 <= #[trigger] cells_of(steps)[k] < 81,
{
    assert forall|k: int| 0 <= k < cells_of(steps).len() implies 0 <= #[trigger] cells_of(steps)[k]
        < 81 by {
        assert(steps[k].index < index);
    }
}

/// A filled cell is passed over.
proof fn lemma_skip(start: Seq<u8>, found: Seq<Cells>, steps: Seq<Step>, grid: Seq<u8>, index: int)
    requires
        searching(start, found, steps, grid, index, 1),
        0 <= index < 81,
        grid[index] != 0,
    ensures
        searching(start, found, steps, grid, index + 1, 1),
{
    assert forall|i: int| 0 <= i < steps.len() implies (#[trigger] steps[i]).index < index + 1 by {
        assert(steps[i].index < index);
    }
    assert forall|s: Seq<u8>| #[trigger] solves(s, start) implies recorded(found, s) || ahead(
        s,
        grid,
        index + 1,
        1,
    ) || deferred(s, cells_of(steps), rests_of(steps, grid), grid) by {
        if index + 1 < 81 {
            assert(s[index + 1] != 0);
        }
    }
    assert forall|k: int| 0 <= k < found.len() implies !ahead(
        (#[trigger] found[k])@,
        grid,
        index + 1,
        1,
    ) by {
        assert(!ahead(found[k]@, grid, index, 1));
    }
}

/// Going deeper: a new frame fills the current cell with the least legal digit that is
/// still to be tried, and the search moves to the next cell.
proof fn lemma_push(
    start: Seq<u8>,
    found: Seq<Cells>,
    steps: Seq<Step>,
    grid: Seq<u8>,
    initial_value: u8,
    step: Step,
)
    requires
        searching(start, found, steps, grid, step.index as int, initial_value),
        step.index < 81,
        grid[step.index as int] == 0,
        initial_value <= step.value <= 9,
        legal(grid, step.index as int, step.value),
        forall|u: u8| initial_value <= u < step.value ==> !legal(grid, step.index as int, u),
    ensures
        searching(
            start,
            found,
            steps.push(step),
            grid.update(step.index as int, step.value),
            step.index + 1,
            1,
        ),
        rank(places_of(steps.push(step), 1)) <= rank(places_of(steps, initial_value)),
{
    let n = steps.len() as int;
    let index = step.index as int;
    let v = step.value;
    let cells = cells_of(steps);
    let rests = rests_of(steps, grid);
    let rest = above(grid, index, v);
    let steps2 = steps.push(step);
    let grid2 = grid.update(index, v);
    lemma_above(grid, index, v);
    lemma_trail_push(cells, rests, grid, index, v, rest);
    assert(cells_of(steps2) =~= cells.push(index));
    assert forall|i: int| 0 <= i < steps2.len() implies #[trigger] rests_of(steps2, grid2)[i]
        == rests.push(rest)[i] by {
        assert(base(cells.push(index), grid2, i) == base(cells, grid, i));
        if i < n {
            assert(steps2[i] == steps[i]);
        }
    }
    assert(rests_of(steps2, grid2) =~= rests.push(rest));
    assert(base(cells.push(index), grid2, 0) == base(cells, grid, 0));
    assert forall|i: int| 0 <= i < steps2.len() implies (#[trigger] steps2[i]).index < index + 1
        && 1 <= steps2[i].value <= 9 && grid2[steps2[i].index as int] == steps2[i].value by {
        if i < n {
            assert(steps2[i] == steps[i]);
            assert(steps[i].index < index);
        }
    }
    assert forall|i: int, j: int| 0 <= i < j < steps2.len() implies (#[trigger] steps2[i]).index < (
    #[trigger] steps2[j]).index by {
        assert(steps2[i] == steps[i]);
        assert(steps[i].index < index);
        if j < n {
            assert(steps2[j] == steps[j]);
        }
    }
    assert forall|c: int| 0 <= c < index + 1 implies #[trigger] grid2[c] != 0 by {
        if c < index {
            assert(grid[c] != 0);
        }
    }
    assert forall|s: Seq<u8>| #[trigger] solves(s, start) implies recorded(found, s) || ahead(
        s,
        grid2,
        index + 1,
        1,
    ) || deferred(s, cells_of(steps2), rests_of(steps2, grid2), grid2) by {
        lemma_deferred_push(s, cells, rests, grid, index, v, rest);
        lemma_extends_update(s, grid, index, v);
        if !recorded(found, s) && !deferred(s, cells, rests, grid) {
            assert(ahead(s, grid, index, initial_value));
            lemma_solution_digit_is_legal(s, grid, index);
            if s[index] == v {
                if index + 1 < 81 {
                    assert(s[index + 1] != 0);
                }
            } else {
                assert(rest.contains(s[index]));
                assert(in_branches(s, grid, index, rest));
            }
        }
    }
    assert forall|k: int| 0 <= k < found.len() implies !ahead(
        (#[trigger] found[k])@,
        grid2,
        index + 1,
        1,
    ) && !deferred(found[k]@, cells_of(steps2), rests_of(steps2, grid2), grid2) by {
        let f = found[k]@;
        lemma_deferred_push(f, cells, rests, grid, index, v, rest);
        lemma_extends_update(f, grid, index, v);
        assert(!ahead(f, grid, index, initial_value));
        if in_branches(f, grid, index, rest) {
            let j = choose|j: int| 0 <= j < rest.len() && rest[j] == f[index];
            assert(rest[j] > v);
        }
    }
    lemma_rank_of_steps(steps, grid, index, initial_value);
    lemma_rank_of_steps(steps2, grid2, index + 1, 1);
    let old_places = places_of(steps, initial_value);
    let new_places = places_of(steps2, 1);
    assert forall|i: int| 0 <= i < n implies digit(new_places, i) == digit(old_places, i) by {
        assert(steps2[i] == steps[i]);
    }
    assert forall|i: int| n <= i < 81 implies digit(new_places, i) <= digit(old_places, i) by {}
    lemma_rank_monotone(new_places, old_places, n, 81);
}

/// A dead end: an empty cell at which no digit that is still to be tried is legal leaves
/// nothing ahead.
proof fn lemma_dead_end(
    start: Seq<u8>,
    found: Seq<Cells>,
    steps: Seq<Step>,
    grid: Seq<u8>,
    index: int,
    initial_value: u8,
)
    requires
        searching(start, found, steps, grid, index, initial_value),
        0 <= index < 81,
        grid[index] == 0,
        forall|u: u8| initial_value <= u <= 9 ==> !legal(grid, index, u),
    ensures
        retreating(start, found, steps, grid, index),
{
    assert forall|s: Seq<u8>| #[trigger] solves(s, start) implies recorded(found, s) || deferred(
        s,
        cells_of(steps),
        rests_of(steps, grid),
        grid,
    ) by {
        if ahead(s, grid, index, initial_value) {
            lemma_solution_digit_is_legal(s, grid, index);
        }
    }
}

/// A full board: the current board is a new solution, and the only one ahead.
proof fn lemma_record(start: Seq<u8>, found: Seq<Cells>, steps: Seq<Step>, grid: Cells, initial_value: u8)
    requires
        searching(start, found, steps, grid@, 81, initial_value),
    ensures
        retreating(start, found.push(grid), steps, grid@, 81),
{
    let cells = cells_of(steps);
    let rests = rests_of(steps, grid@);
    let found2 = found.push(grid);
    lemma_cells_in_range(steps, grid@, 81);
    lemma_grid_extends_base(cells, grid@, 0);
    assert(complete(grid@));
    assert(solves(grid@, start));
    assert(extends(grid@, grid@));
    assert forall|k: int| 0 <= k < found2.len() implies solves((#[trigger] found2[k])@, start) by {
        if k < found.len() {
            assert(found2[k] == found[k]);
        }
    }
    assert forall|j: int, k: int| 0 <= j < k < found2.len() implies (#[trigger] found2[j])@ != (
    #[trigger] found2[k])@ by {
        assert(found2[j] == found[j]);
        if k < found.len() {
            assert(found2[k] == found[k]);
        } else {
            assert(!ahead(found[j]@, grid@, 81, initial_value));
        }
    }
    assert forall|s: Seq<u8>| #[trigger] solves(s, start) implies recorded(found2, s) || deferred(
        s,
        cells,
        rests,
        grid@,
    ) by {
        if recorded(found, s) {
            let k = choose|k: int| 0 <= k < found.len() && (#[trigger] found[k])@ == s;
            assert(found2[k]@ == s);
        } else if ahead(s, grid@, 81, initial_value) {
            lemma_complete_board_is_its_only_extension(s, grid@);
            assert(found2[found.len() as int]@ == s);
        }
    }
    assert forall|k: int| 0 <= k < found2.len() implies !deferred(
        (#[trigger] found2[k])@,
        cells,
        rests,
        grid@,
    ) by {
        if k < found.len() {
            assert(found2[k] == found[k]);
        } else {
            assert forall|i: int| 0 <= i < cells.len() implies !sibling(grid@, cells, rests, grid@, i) by {
                assert(frame_ok(cells, rests, grid@, i));
            }
        }
    }
}

/// Coming back: the last frame goes, its cell is emptied, and the search stands at that cell
/// with the digits above the frame's digit still to try.
proof fn lemma_pop(
    start: Seq<u8>,
    found: Seq<Cells>,
    steps: Seq<Step>,
    grid: Seq<u8>,
    index: int,
    initial_value: u8,
)
    requires
        retreating(start, found, steps, grid, index),
        0 < steps.len(),
        1 <= initial_value <= 10,
    ensures
        searching(
            start,
            found,
            steps.drop_last(),
            grid.update(steps.last().index as int, 0),
            steps.last().index as int,
            (steps.last().value + 1) as u8,
        ),
        rank(places_of(steps.drop_last(), (steps.last().value + 1) as u8)) < rank(
            places_of(steps, initial_value),
        ),
{
    let n = steps.len() as int;
    let top = steps.last();
    let cell = top.index as int;
    let next = (top.value + 1) as u8;
    let cells = cells_of(steps);
    let rests = rests_of(steps, grid);
    let steps1 = steps.drop_last();
    let grid1 = grid.update(cell, 0);
    assert(steps[n - 1] == top);
    assert(cells.last() == cell);
    lemma_trail_pop(cells, rests, grid);
    assert(cells_of(steps1) =~= cells.drop_last());
    assert forall|i: int| 0 <= i < steps1.len() implies #[trigger] rests_of(steps1, grid1)[i]
        == rests.drop_last()[i] by {
        assert(base(cells, grid, i) == base(cells.drop_last(), grid1, i));
        assert(steps1[i] == steps[i]);
    }
    assert(rests_of(steps1, grid1) =~= rests.drop_last());
    assert(base(cells, grid, 0) == base(cells.drop_last(), grid1, 0));
    assert(rests.last() == above(grid1, cell, top.value));
    lemma_above(grid1, cell, top.value);
    assert forall|i: int| 0 <= i < steps1.len() implies (#[trigger] steps1[i]).index < cell && 1
        <= steps1[i].value <= 9 && grid1[steps1[i].index as int] == steps1[i].value by {
        assert(steps1[i] == steps[i]);
        assert(steps[i].index < steps[n - 1].index);
    }
    assert forall|i: int, j: int| 0 <= i < j < steps1.len() implies (#[trigger] steps1[i]).index < (
    #[trigger] steps1[j]).index by {
        assert(steps1[i] == steps[i]);
        assert(steps1[j] == steps[j]);
    }
    assert forall|c: int| 0 <= c < cell implies #[trigger] grid1[c] != 0 by {
        assert(grid[c] != 0);
    }
    assert forall|s: Seq<u8>| #[trigger] solves(s, start) implies recorded(found, s) || ahead(
        s,
        grid1,
        cell,
        next,
    ) || deferred(s, cells_of(steps1), rests_of(steps1, grid1), grid1) by {
        lemma_deferred_pop(s, cells, rests, grid);
        if in_branches(s, grid1, cell, rests.last()) {
            let j = choose|j: int| 0 <= j < rests.last().len() && rests.last()[j] == s[cell];
            assert(above(grid1, cell, top.value)[j] > top.value);
        }
    }
    assert forall|k: int| 0 <= k < found.len() implies !ahead((#[trigger] found[k])@, grid1, cell, next)
        && !deferred(found[k]@, cells_of(steps1), rests_of(steps1, grid1), grid1) by {
        let f = found[k]@;
        lemma_deferred_pop(f, cells, rests, grid);
        assert(solves(f, start));
        if ahead(f, grid1, cell, next) {
            lemma_solution_digit_is_legal(f, grid1, cell);
            assert(above(grid1, cell, top.value).contains(f[cell]));
        }
    }
    lemma_rank_of_steps(steps, grid, index, initial_value);
    lemma_rank_of_steps(steps1, grid1, cell, next);
    let old_places = places_of(steps, initial_value);
    let new_places = places_of(steps1, next);
    assert forall|i: int| 0 <= i < n - 1 implies digit(new_places, i) == digit(old_places, i) by {
        assert(steps1[i] == steps[i]);
    }
    assert(digit(new_places, n - 1) < digit(old_places, n - 1));
    lemma_rank_decreases(new_places, old_places, n - 1, 81);
}

/// The end: a trail without a frame whose board is done has found everything.
proof fn lemma_finish(start: Seq<u8>, found: Seq<Cells>, steps: Seq<Step>, grid: Seq<u8>, index: int)
    requires
        retreating(start, found, steps, grid, index),
        steps.len() == 0,
    ensures
        all_solve(found, start),
        all_distinct(found),
        exhaustive(found, start),
{
}

/// What lies ahead, in the order of the search.
spec fn current(grid: Seq<u8>, index: int, initial_value: u8) -> Seq<Seq<u8>> {
    if 0 <= index < 81 && grid[index] == 0 {
        digit_order(grid, index, initial_value as int)
    } else {
        search_order_from(grid, index)
    }
}

/// The boards that the frames have yet to visit, in the order of the search: those of the
/// last frame first.
spec fn later(steps: Seq<Step>, grid: Seq<u8>) -> Seq<Seq<u8>>
    decreases steps.len(),
{
    if steps.len() == 0 {
        Seq::empty()
    } else {
        let top = steps.last();
        let b = grid.update(top.index as int, 0);
        digit_order(b, top.index as int, top.value + 1) + later(steps.drop_last(), b)
    }
}

/// What was found, what lies ahead and what the frames have yet to visit make up the search
/// order of `start`.
spec fn in_order(
    start: Seq<u8>,
    found: Seq<Cells>,
    steps: Seq<Step>,
    grid: Seq<u8>,
    index: int,
    initial_value: u8,
) -> bool {
    boards(found) + current(grid, index, initial_value) + later(steps, grid) == search_order(start)
}

/// What was found and what the frames have yet to visit make up the search order of `start`.
spec fn in_order_back(start: Seq<u8>, found: Seq<Cells>, steps: Seq<Step>, grid: Seq<u8>) -> bool {
    boards(found) + later(steps, grid) == search_order(start)
}

/// At a cell that is reached with every digit still to try, what lies ahead is the search
/// order from that cell.
proof fn lemma_current_at_first_digit(grid: Seq<u8>, index: int)
    requires
        0 <= index <= 81,
    ensures
        current(grid, index, 1) == search_order_from(grid, index),
{
}

/// Digits that are not legal for a cell add nothing to the order.
proof fn lemma_illegal_digits(b: Seq<u8>, cell: int, least: int, next: int)
    requires
        0 <= cell < 81,
        0 <= least <= next <= 10,
        forall|u: u8| least <= u < next ==> !legal(b, cell, u),
    ensures
        digit_order(b, cell, least) == digit_order(b, cell, next),
    decreases next - least,
{
    if least < next {
        assert(!legal(b, cell, least as u8));
        lemma_illegal_digits(b, cell, least + 1, next);
    }
}

/// Passing over a filled cell keeps the order.
proof fn lemma_skip_order(
    start: Seq<u8>,
    found: Seq<Cells>,
    steps: Seq<Step>,
    grid: Seq<u8>,
    index: int,
)
    requires
        in_order(start, found, steps, grid, index, 1),
        0 <= index < 81,
        grid[index] != 0,
    ensures
        in_order(start, found, steps, grid, index + 1, 1),
{
    lemma_current_at_first_digit(grid, index + 1);
}

/// Going deeper keeps the order.
proof fn lemma_push_order(
    start: Seq<u8>,
    found: Seq<Cells>,
    steps: Seq<Step>,
    grid: Seq<u8>,
    initial_value: u8,
    step: Step,
)
    requires
        in_order(start, found, steps, grid, step.index as int, initial_value),
        grid.len() == 81,
        step.index < 81,
        grid[step.index as int] == 0,
        1 <= initial_value <= step.value <= 9,
        legal(grid, step.index as int, step.value),
        forall|u: u8| initial_value <= u < step.value ==> !legal(grid, step.index as int, u),
    ensures
        in_order(
            start,
            found,
            steps.push(step),
            grid.update(step.index as int, step.value),
            step.index + 1,
            1,
        ),
{
    let index = step.index as int;
    let v = step.value;
    let steps2 = steps.push(step);
    let grid2 = grid.update(index, v);
    lemma_illegal_digits(grid, index, initial_value as int, v as int);
    assert(digit_order(grid, index, v as int) == search_order_from(grid2, index + 1) + digit_order(
        grid,
        index,
        v + 1,
    ));
    lemma_current_at_first_digit(grid2, index + 1);
    assert(steps2.last() == step);
    assert(steps2.drop_last() =~= steps);
    assert(grid2.update(index, 0) =~= grid);
    assert(later(steps2, grid2) == digit_order(grid, index, v + 1) + later(steps, grid));
    assert(boards(found) + current(grid2, index + 1, 1) + later(steps2, grid2) =~= boards(found)
        + current(grid, index, initial_value) + later(steps, grid));
}

/// A dead end has nothing ahead.
proof fn lemma_dead_end_order(
    start: Seq<u8>,
    found: Seq<Cells>,
    steps: Seq<Step>,
    grid: Seq<u8>,
    index: int,
    initial_value: u8,
)
    requires
        in_order(start, found, steps, grid, index, initial_value),
        0 <= index < 81,
        grid[index] == 0,
        1 <= initial_value <= 10,
        forall|u: u8| initial_value <= u <= 9 ==> !legal(grid, index, u),
    ensures
        in_order_back(start, found, steps, grid),
{
    lemma_illegal_digits(grid, index, initial_value as int, 10);
    assert(current(grid, index, initial_value) =~= Seq::<Seq<u8>>::empty());
    assert(boards(found) + later(steps, grid) =~= boards(found) + current(
        grid,
        index,
        initial_value,
    ) + later(steps, grid));
}

/// A full board is what lies ahead of itself.
proof fn lemma_record_order(
    start: Seq<u8>,
    found: Seq<Cells>,
    steps: Seq<Step>,
    grid: Cells,
    initial_value: u8,
)
    requires
        in_order(start, found, steps, grid@, 81, initial_value),
    ensures
        in_order_back(start, found.push(grid), steps, grid@),
{
    assert(current(grid@, 81, initial_value) == seq![grid@]);
    assert(boards(found.push(grid)) =~= boards(found) + seq![grid@]);
    assert(boards(found.push(grid)) + later(steps, grid@) =~= boards(found) + current(
        grid@,
        81,
        initial_value,
    ) + later(steps, grid@));
}

/// Coming back keeps the order.
proof fn lemma_pop_order(
    start: Seq<u8>,
    found: Seq<Cells>,
    steps: Seq<Step>,
    grid: Seq<u8>,
    index: int,
)
    requires
        in_order_back(start, found, steps, grid),
        steps_ok(steps, grid, index),
        0 < steps.len(),
    ensures
        in_order(
            start,
            found,
            steps.drop_last(),
            grid.update(steps.last().index as int, 0),
            steps.last().index as int,
            (steps.last().value + 1) as u8,
        ),
{
    let n = steps.len() as int;
    let top = steps.last();
    let b = grid.update(top.index as int, 0);
    assert(steps[n - 1] == top);
    assert(top.index < index);
    assert(1 <= top.value <= 9);
    assert(boards(found) + current(b, top.index as int, (top.value + 1) as u8) + later(
        steps.drop_last(),
        b,
    ) =~= boards(found) + later(steps, grid));
}

/// What was found is the beginning of the search order.
proof fn lemma_found_in_order(start: Seq<u8>, found: Seq<Cells>, steps: Seq<Step>, grid: Seq<u8>)
    requires
        in_order_back(start, found, steps, grid),
    ensures
        boards(found).is_prefix_of(search_order(start)),
{
    let whole = boards(found) + later(steps, grid);
    assert(whole.subrange(0, boards(found).len() as int) =~= boards(found));
}

/// The next frame for the cell `index`: the least digit from `initial_value` up to 9 that is
/// legal there; `None` when there is none.
fn generate_step(grid: &Cells, index: usize, initial_value: u8) -> (next: Option<Step>)
    requires
        index < 81,
    ensures
        match next {
            None => forall|u: u8| initial_value <= u <= 9 ==> !legal(grid@, index as int, u),
            Some(step) => {
                &&& step.index == index
                &&& initial_value <= step.value <= 9
                &&& legal(grid@, index as int, step.value)
                &&& forall|u: u8| initial_value <= u < step.value ==> !legal(grid@, index as int, u)
            },
        },
{
    let mut value: u8 = initial_value;
    while value <= 9
        invariant
            index < 81,
            initial_value <= value,
            forall|u: u8| initial_value <= u < value ==> !legal(grid@, index as int, u),
        decreases 10 - value,
    {
        if validate_candidate(grid, index, value) {
            return Some(Step { index, value });
        }
        value += 1;
    }
    None
}

/// All solutions of a board, or the first one or two, found by filling the empty cells in
/// ascending order of their index.
///
/// Returns distinct complete valid boards that keep every filled cell of `grid`, in the order
/// in which the search reaches them. With both flags off these are all the solutions of
/// `grid`. With `check_solvable` the search stops at the first solution; with `check_unique`
/// alone, at the second. A board that is not valid has no solution, and is not searched.
pub fn solve(grid: Cells, check_solvable: bool, check_unique: bool) -> (solutions: Vec<Cells>)
    ensures
        search_result(grid@, check_solvable, check_unique, solutions@),
        !consistent(grid@) ==> solutions@.len() == 0,
        consistent(grid@) ==> solutions@.len() == stop_limit(
            check_solvable,
            check_unique,
            search_order(grid@).len(),
        ),
        consistent(grid@) ==> boards(solutions@) == search_order(grid@).take(
            solutions@.len() as int,
        ),
{
    let mut solutions: Vec<Cells> = Vec::new();
    if !is_consistent(&grid) {
        proof {
            assert forall|s: Seq<u8>| #[trigger] solves(s, grid@) implies recorded(solutions@, s) by {
                lemma_solvable_is_consistent(s, grid@);
            }
        }
        return solutions;
    }
    let ghost start = grid@;
    let mut board: Cells = grid;
    let mut index: usize = 0;
    let mut initial_value: u8 = 1;
    let mut steps: Vec<Step> = Vec::new();
    proof {
        assert(cells_of(steps@) =~= Seq::<int>::empty());
        assert(rests_of(steps@, board@) =~= Seq::<Seq<u8>>::empty());
        lemma_clue_count_update(board@, 0, 0);
        assert forall|s: Seq<u8>| #[trigger] solves(s, start) implies ahead(s, board@, 0, 1) by {
            assert(s[0] != 0);
        }
        lemma_current_at_first_digit(board@, 0);
        assert(boards(solutions@) + current(board@, 0, 1) + later(steps@, board@) =~= search_order(
            start,
        ));
    }
    loop
        invariant_except_break
            searching(start, solutions@, steps@, board@, index as int, initial_value),
            in_order(start, solutions@, steps@, board@, index as int, initial_value),
            check_solvable ==> solutions@.len() == 0,
            check_unique ==> solutions@.len() <= 1,
        ensures
            search_result(start, check_solvable, check_unique, solutions@),
            boards(solutions@).is_prefix_of(search_order(start)),
        decreases rank(places_of(steps@, initial_value)), 81 - index,
    {
        let ghost rank0 = rank(places_of(steps@, initial_value));
        proof {
            lemma_rank_of_steps(steps@, board@, index as int, initial_value);
        }
        if index == 81 {
            proof {
                lemma_record_order(start, solutions@, steps@, board, initial_value);
                lemma_record(start, solutions@, steps@, board, initial_value);
                lemma_found_in_order(start, solutions@.push(board), steps@, board@);
            }
            solutions.push(board);
            if check_solvable {
                break ;
            }
            if check_unique && solutions.len() > 1 {
                break ;
            }
            let ghost trail = steps@;
            let ghost before = board@;
            match steps.pop() {
                Some(step) => {
                    proof {
                        assert(trail.drop_last() =~= steps@);
                        lemma_pop_order(start, solutions@, trail, before, 81);
                        lemma_pop(start, solutions@, trail, before, 81, initial_value);
                    }
                    board[step.index] = 0;
                    index = step.index;
                    initial_value = step.value + 1;
                },
                None => {
                    proof {
                        lemma_finish(start, solutions@, trail, before, 81);
                    }
                    break ;
                },
            }
        }
        if board[index] != 0 {
            proof {
                lemma_skip_order(start, solutions@, steps@, board@, index as int);
                lemma_skip(start, solutions@, steps@, board@, index as int);
            }
            index += 1;
            initial_value = 1;
            continue ;
        }
        let ghost trail = steps@;
        let ghost before = board@;
        match generate_step(&board, index, initial_value) {
            Some(step) => {
                proof {
                    lemma_push_order(start, solutions@, trail, before, initial_value, step);
                    lemma_push(start, solutions@, trail, before, initial_value, step);
                    lemma_rank_of_steps(
                        trail.push(step),
                        before.update(index as int, step.value),
                        index + 1,
                        1,
                    );
                }
                board[index] = step.value;
                index += 1;
                initial_value = 1;
                steps.push(step);
            },
            None => {
                proof {
                    lemma_dead_end_order(
                        start,
                        solutions@,
                        trail,
                        before,
                        index as int,
                        initial_value,
                    );
                    lemma_dead_end(start, solutions@, trail, before, index as int, initial_value);
                    lemma_found_in_order(start, solutions@, trail, before);
                }
                match steps.pop() {
                    Some(step) => {
                        proof {
                            assert(trail.drop_last() =~= steps@);
                            lemma_pop_order(start, solutions@, trail, before, index as int);
                            lemma_pop(start, solutions@, trail, before, index as int, initial_value);
                            lemma_rank_of_steps(
                                steps@,
                                before.update(step.index as int, 0),
                                step.index as int,
                                (step.value + 1) as u8,
                            );
                        }
                        board[step.index] = 0;
                        index = step.index;
                        initial_value = step.value + 1;
                    },
                    None => {
                        proof {
                            lemma_finish(start, solutions@, trail, before, index as int);
                        }
                        break ;
                    },
                }
            },
        }
    }
    proof {
        lemma_search_order_lists_solutions(start);
        lemma_search_returns_first(
            start,
            check_solvable,
            check_unique,
            solutions@,
            search_order(start),
        );
    }
    solutions
}

} // verus!
