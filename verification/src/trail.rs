//! The decision trail of a backtracking search, as mathematics: which boards a trail still
//! has to visit, what keeps a trail sound, and the measure by which every search step
//! comes closer to the end.
//!
//! A trail is told by two sequences of one length: the cell that each frame filled, and the
//! digits that each frame has not tried yet.

use crate::utils::{clue_count, consistent, extends, legal};
use crate::utils::{lemma_clear_keeps_consistent, lemma_clue_count_update, lemma_place_keeps_consistent};
use vstd::prelude::*;

verus! {

/// The board as it stood before frame `i` and every later frame filled its cell.
pub open spec fn base(cells: Seq<int>, grid: Seq<u8>, i: int) -> Seq<u8>
    decreases cells.len(),
{
    if cells.len() == 0 || i >= cells.len() {
        grid
    } else {
        base(cells.drop_last(), grid.update(cells.last(), 0), i)
    }
}

/// `s` lies in a branch that is still open at `cell` of board `b`: it keeps `b` and holds one
/// of `options` at `cell`.
pub open spec fn in_branches(s: Seq<u8>, b: Seq<u8>, cell: int, options: Seq<u8>) -> bool {
    extends(s, b) && options.contains(s[cell])
}

/// `s` lies in a branch that frame `i` has not tried yet.
pub open spec fn sibling(s: Seq<u8>, cells: Seq<int>, rests: Seq<Seq<u8>>, grid: Seq<u8>, i: int) -> bool {
    in_branches(s, base(cells, grid, i), cells[i], rests[i])
}

/// `s` lies in a branch that some frame of the trail has not tried yet.
pub open spec fn deferred(s: Seq<u8>, cells: Seq<int>, rests: Seq<Seq<u8>>, grid: Seq<u8>) -> bool {
    exists|i: int| 0 <= i < cells.len() && #[trigger] sibling(s, cells, rests, grid, i)
}

/// `s` is still to be visited: it keeps the current board, or lies in an untried branch.
pub open spec fn pending(s: Seq<u8>, cells: Seq<int>, rests: Seq<Seq<u8>>, grid: Seq<u8>) -> bool {
    extends(s, grid) || deferred(s, cells, rests, grid)
}

/// Frame `i` is sound: its cell is filled, and each untried digit is a legal digit for the
/// cell on the board before the frame, other than the one that stands there now.
pub open spec fn frame_ok(cells: Seq<int>, rests: Seq<Seq<u8>>, grid: Seq<u8>, i: int) -> bool {
    &&& 0 <= cells[i] < 81
    &&& grid[cells[i]] != 0
    &&& forall|k: int|
        0 <= k < rests[i].len() ==> {
            let v = #[trigger] rests[i][k];
            1 <= v <= 9 && v != grid[cells[i]] && legal(base(cells, grid, i), cells[i], v)
        }
}

/// The trail is sound: the board is valid, no two frames fill one cell, and each frame is sound.
pub open spec fn trail_ok(cells: Seq<int>, rests: Seq<Seq<u8>>, grid: Seq<u8>) -> bool {
    &&& cells.len() == rests.len()
    &&& cells.len() <= clue_count(grid)
    &&& consistent(grid)
    &&& forall|i: int, j: int| 0 <= i < j < cells.len() ==> #[trigger] cells[i] != #[trigger] cells[j]
    &&& forall|i: int| 0 <= i < cells.len() ==> #[trigger] frame_ok(cells, rests, grid, i)
}

/// Taking the last frame off, and emptying its cell, leaves the earlier boards as they were.
pub proof fn lemma_base_pop(cells: Seq<int>, grid: Seq<u8>, i: int)
    requires
        0 < cells.len(),
        0 <= i < cells.len(),
    ensures
        base(cells, grid, i) == base(cells.drop_last(), grid.update(cells.last(), 0), i),
        i == cells.len() - 1 ==> base(cells, grid, i) == grid.update(cells.last(), 0),
{
    if i == cells.len() - 1 {
        assert(base(cells.drop_last(), grid.update(cells.last(), 0), i) == grid.update(
            cells.last(),
            0,
        ));
    }
}

/// Filling an empty cell in a new last frame leaves the earlier boards as they were.
pub proof fn lemma_base_push(cells: Seq<int>, grid: Seq<u8>, cell: int, v: u8, i: int)
    requires
        grid.len() == 81,
        0 <= cell < 81,
        grid[cell] == 0,
        0 <= i <= cells.len(),
    ensures
        base(cells.push(cell), grid.update(cell, v), i) == base(cells, grid, i),
{
    let cells2 = cells.push(cell);
    let grid2 = grid.update(cell, v);
    assert(cells2.drop_last() =~= cells);
    assert(grid2.update(cell, 0) =~= grid);
}

/// An earlier board differs from the current one only where it is empty.
pub proof fn lemma_base_cell(cells: Seq<int>, grid: Seq<u8>, i: int, c: int)
    requires
        grid.len() == 81,
        0 <= c < 81,
        forall|k: int| 0 <= k < cells.len() ==> 0 <= #[trigger] cells[k] < 81,
    ensures
        base(cells, grid, i).len() == 81,
        base(cells, grid, i)[c] == 0 || base(cells, grid, i)[c] == grid[c],
    decreases cells.len(),
{
    if cells.len() == 0 || i >= cells.len() {
    } else {
        assert(0 <= cells[cells.len() - 1] < 81);
        lemma_base_cell(cells.drop_last(), grid.update(cells.last(), 0), i, c);
    }
}

/// The current board keeps every filled cell of each earlier board.
pub proof fn lemma_grid_extends_base(cells: Seq<int>, grid: Seq<u8>, i: int)
    requires
        grid.len() == 81,
        forall|k: int| 0 <= k < cells.len() ==> 0 <= #[trigger] cells[k] < 81,
    ensures
        base(cells, grid, i).len() == 81,
        extends(grid, base(cells, grid, i)),
{
    lemma_base_cell(cells, grid, i, 0);
    assert forall|c: int| 0 <= c < 81 && #[trigger] base(cells, grid, i)[c] != 0 implies grid[c]
        == base(cells, grid, i)[c] by {
        lemma_base_cell(cells, grid, i, c);
    }
}

/// The untried branches of a trail are those of the trail without its last frame, and those
/// of the last frame.
pub proof fn lemma_deferred_pop(s: Seq<u8>, cells: Seq<int>, rests: Seq<Seq<u8>>, grid: Seq<u8>)
    requires
        0 < cells.len(),
        cells.len() == rests.len(),
    ensures
        deferred(s, cells, rests, grid) <==> deferred(
            s,
            cells.drop_last(),
            rests.drop_last(),
            grid.update(cells.last(), 0),
        ) || in_branches(s, grid.update(cells.last(), 0), cells.last(), rests.last()),
{
    let n = cells.len() as int;
    let cells1 = cells.drop_last();
    let rests1 = rests.drop_last();
    let grid1 = grid.update(cells.last(), 0);
    if deferred(s, cells, rests, grid) {
        let i = choose|i: int| 0 <= i < cells.len() && #[trigger] sibling(s, cells, rests, grid, i);
        lemma_base_pop(cells, grid, i);
        if i < n - 1 {
            assert(sibling(s, cells1, rests1, grid1, i));
        }
    }
    if deferred(s, cells1, rests1, grid1) {
        let i = choose|i: int| 0 <= i < cells1.len() && #[trigger] sibling(s, cells1, rests1, grid1, i);
        lemma_base_pop(cells, grid, i);
        assert(sibling(s, cells, rests, grid, i));
    }
    if in_branches(s, grid1, cells.last(), rests.last()) {
        lemma_base_pop(cells, grid, n - 1);
        assert(sibling(s, cells, rests, grid, n - 1));
    }
}

/// The untried branches after a new frame fills an empty cell are those before, and those of
/// the new frame.
pub proof fn lemma_deferred_push(
    s: Seq<u8>,
    cells: Seq<int>,
    rests: Seq<Seq<u8>>,
    grid: Seq<u8>,
    cell: int,
    v: u8,
    rest: Seq<u8>,
)
    requires
        cells.len() == rests.len(),
        grid.len() == 81,
        0 <= cell < 81,
        grid[cell] == 0,
    ensures
        deferred(s, cells.push(cell), rests.push(rest), grid.update(cell, v)) <==> deferred(
            s,
            cells,
            rests,
            grid,
        ) || in_branches(s, grid, cell, rest),
{
    let cells2 = cells.push(cell);
    let rests2 = rests.push(rest);
    let grid2 = grid.update(cell, v);
    lemma_deferred_pop(s, cells2, rests2, grid2);
    assert(cells2.drop_last() =~= cells);
    assert(rests2.drop_last() =~= rests);
    assert(grid2.update(cell, 0) =~= grid);
}

/// A board keeps a board with one more filled cell exactly when it keeps the smaller board and
/// holds the new digit.
pub proof fn lemma_extends_update(s: Seq<u8>, grid: Seq<u8>, cell: int, v: u8)
    requires
        grid.len() == 81,
        0 <= cell < 81,
        grid[cell] == 0,
        v != 0,
    ensures
        extends(s, grid.update(cell, v)) <==> extends(s, grid) && s[cell] == v,
{
    let grid2 = grid.update(cell, v);
    if extends(s, grid2) {
        assert(grid2[cell] != 0);
        assert forall|i: int| 0 <= i < 81 && #[trigger] grid[i] != 0 implies s[i] == grid[i] by {
            assert(grid2[i] != 0);
        }
    }
    if extends(s, grid) && s[cell] == v {
        assert forall|i: int| 0 <= i < 81 && #[trigger] grid2[i] != 0 implies s[i] == grid2[i] by {
            if i != cell {
                assert(grid[i] != 0);
            }
        }
    }
}

/// Taking the last frame off, and emptying its cell, keeps a trail sound.
pub proof fn lemma_trail_pop(cells: Seq<int>, rests: Seq<Seq<u8>>, grid: Seq<u8>)
    requires
        trail_ok(cells, rests, grid),
        0 < cells.len(),
    ensures
        trail_ok(cells.drop_last(), rests.drop_last(), grid.update(cells.last(), 0)),
        forall|i: int|
            0 <= i < cells.len() ==> #[trigger] base(cells, grid, i) == base(
                cells.drop_last(),
                grid.update(cells.last(), 0),
                i,
            ),
        base(cells, grid, cells.len() - 1) == grid.update(cells.last(), 0),
{
    let n = cells.len() as int;
    let cells1 = cells.drop_last();
    let rests1 = rests.drop_last();
    let grid1 = grid.update(cells.last(), 0);
    assert(frame_ok(cells, rests, grid, n - 1));
    lemma_clear_keeps_consistent(grid, cells.last());
    lemma_clue_count_update(grid, cells.last(), 0);
    assert forall|i: int| 0 <= i < cells.len() implies #[trigger] base(cells, grid, i) == base(
        cells1,
        grid1,
        i,
    ) by {
        lemma_base_pop(cells, grid, i);
    }
    lemma_base_pop(cells, grid, n - 1);
    assert forall|i: int| 0 <= i < cells1.len() implies #[trigger] frame_ok(cells1, rests1, grid1, i) by {
        assert(frame_ok(cells, rests, grid, i));
        assert(cells[i] != cells[n - 1]);
        lemma_base_pop(cells, grid, i);
    }
}

/// A new frame that fills an empty cell with a legal digit, and keeps other legal digits for
/// later, keeps a trail sound; the trail was shorter than the board has cells.
pub proof fn lemma_trail_push(
    cells: Seq<int>,
    rests: Seq<Seq<u8>>,
    grid: Seq<u8>,
    cell: int,
    v: u8,
    rest: Seq<u8>,
)
    requires
        trail_ok(cells, rests, grid),
        0 <= cell < 81,
        grid[cell] == 0,
        1 <= v <= 9,
        legal(grid, cell, v),
        forall|k: int|
            0 <= k < rest.len() ==> 1 <= #[trigger] rest[k] <= 9 && rest[k] != v && legal(
                grid,
                cell,
                rest[k],
            ),
    ensures
        trail_ok(cells.push(cell), rests.push(rest), grid.update(cell, v)),
        cells.len() < 81,
        forall|i: int|
            0 <= i <= cells.len() ==> #[trigger] base(cells.push(cell), grid.update(cell, v), i)
                == base(cells, grid, i),
{
    let n = cells.len() as int;
    let cells2 = cells.push(cell);
    let rests2 = rests.push(rest);
    let grid2 = grid.update(cell, v);
    lemma_place_keeps_consistent(grid, cell, v);
    lemma_clue_count_update(grid, cell, v);
    assert forall|i: int| 0 <= i <= cells.len() implies #[trigger] base(cells2, grid2, i) == base(
        cells,
        grid,
        i,
    ) by {
        lemma_base_push(cells, grid, cell, v, i);
    }
    assert forall|i: int, j: int| 0 <= i < j < cells2.len() implies #[trigger] cells2[i]
        != #[trigger] cells2[j] by {
        assert(frame_ok(cells, rests, grid, i));
    }
    assert forall|i: int| 0 <= i < cells2.len() implies #[trigger] frame_ok(cells2, rests2, grid2, i) by {
        lemma_base_push(cells, grid, cell, v, i);
        if i < n {
            assert(frame_ok(cells, rests, grid, i));
        }
    }
}

/// Place `i` of a trail's measure: what frame `i` has left, or 10 where the trail has no
/// frame `i`.
pub open spec fn digit(ds: Seq<int>, i: int) -> int {
    if 0 <= i < ds.len() {
        ds[i]
    } else {
        10
    }
}

/// The first `k` places read as a number in base 11.
pub open spec fn rank_upto(ds: Seq<int>, k: nat) -> int
    decreases k,
{
    if k == 0 {
        0
    } else {
        11 * rank_upto(ds, (k - 1) as nat) + digit(ds, k - 1)
    }
}

/// The measure of a trail: its 81 places read as a number in base 11.
pub open spec fn rank(ds: Seq<int>) -> int {
    rank_upto(ds, 81)
}

/// Each place holds `0..=10`.
pub open spec fn digits_ok(ds: Seq<int>) -> bool {
    forall|i: int| 0 <= i < ds.len() ==> 0 <= #[trigger] ds[i] <= 10
}

/// The measure is never negative.
pub proof fn lemma_rank_nonnegative(ds: Seq<int>, k: nat)
    requires
        digits_ok(ds),
    ensures
        0 <= rank_upto(ds, k),
    decreases k,
{
    if k > 0 {
        lemma_rank_nonnegative(ds, (k - 1) as nat);
    }
}

/// Two trails that agree on the first `p` places, the first nowhere above the second from
/// there on: the first measures no more.
pub proof fn lemma_rank_monotone(a: Seq<int>, b: Seq<int>, p: int, k: nat)
    requires
        digits_ok(a),
        digits_ok(b),
        0 <= p,
        forall|i: int| 0 <= i < p ==> digit(a, i) == digit(b, i),
        forall|i: int| p <= i < k ==> digit(a, i) <= digit(b, i),
    ensures
        rank_upto(a, k) <= rank_upto(b, k),
        k <= p ==> rank_upto(a, k) == rank_upto(b, k),
    decreases k,
{
    if k > 0 {
        lemma_rank_monotone(a, b, p, (k - 1) as nat);
    }
}

/// Two trails that agree on the first `p` places, the first lower at place `p`: the first
/// measures less, whatever follows.
pub proof fn lemma_rank_decreases(a: Seq<int>, b: Seq<int>, p: int, k: nat)
    requires
        digits_ok(a),
        digits_ok(b),
        0 <= p < k,
        forall|i: int| 0 <= i < p ==> digit(a, i) == digit(b, i),
        digit(a, p) < digit(b, p),
    ensures
        rank_upto(a, k) < rank_upto(b, k),
    decreases k,
{
    if k == p + 1 {
        lemma_rank_monotone(a, b, p, p as nat);
    } else {
        lemma_rank_decreases(a, b, p, (k - 1) as nat);
    }
}

} // verus!
