//! The board model and the row/column/box constraint checker.

use vstd::prelude::*;
use vstd::string::StringExecFns;

verus! {

/// A board: 81 cells in row-major order, `0` for an empty cell and `1..=9` for a digit.
pub type Cells = [u8; 81];

/// Row of a cell.
pub open spec fn row_of(i: int) -> int {
    i / 9
}

/// Column of a cell.
pub open spec fn col_of(i: int) -> int {
    i % 9
}

/// Box of a cell, numbered row-major over the nine 3×3 boxes.
pub open spec fn box_of(i: int) -> int {
    3 * (row_of(i) / 3) + col_of(i) / 3
}

/// Two distinct cells that share a row, a column or a box.
pub open spec fn peers(i: int, j: int) -> bool {
    &&& i != j
    &&& (row_of(i) == row_of(j) || col_of(i) == col_of(j) || box_of(i) == box_of(j))
}

/// No peer of cell `i` holds `v`. What cell `i` itself holds plays no part.
pub open spec fn legal(b: Seq<u8>, i: int, v: u8) -> bool {
    forall|j: int| 0 <= j < 81 && peers(i, j) ==> #[trigger] b[j] != v
}

/// The legal digits among `1..=n` at cell `i`, in ascending order.
pub open spec fn candidates_upto(b: Seq<u8>, i: int, n: nat) -> Seq<u8>
    decreases n,
{
    if n == 0 {
        Seq::empty()
    } else if legal(b, i, n as u8) {
        candidates_upto(b, i, (n - 1) as nat).push(n as u8)
    } else {
        candidates_upto(b, i, (n - 1) as nat)
    }
}

/// The candidate set of cell `i`: the digits `1..=9` that no peer holds, ascending.
pub open spec fn candidate_seq(b: Seq<u8>, i: int) -> Seq<u8> {
    candidates_upto(b, i, 9)
}

/// 81 cells, each `0..=9`.
pub open spec fn in_range(b: Seq<u8>) -> bool {
    &&& b.len() == 81
    &&& forall|i: int| 0 <= i < 81 ==> #[trigger] b[i] <= 9
}

/// A valid board: in range, and no row, column or box holds a digit twice.
pub open spec fn consistent(b: Seq<u8>) -> bool {
    &&& in_range(b)
    &&& forall|i: int| 0 <= i < 81 && #[trigger] b[i] != 0 ==> legal(b, i, b[i])
}

/// No cell is empty.
pub open spec fn complete(b: Seq<u8>) -> bool {
    forall|i: int| 0 <= i < 81 ==> #[trigger] b[i] != 0
}

/// A solution: a complete valid board.
pub open spec fn is_solution(s: Seq<u8>) -> bool {
    consistent(s) && complete(s)
}

/// `s` keeps every filled cell of `b`.
pub open spec fn extends(s: Seq<u8>, b: Seq<u8>) -> bool {
    forall|i: int| 0 <= i < 81 && #[trigger] b[i] != 0 ==> s[i] == b[i]
}

/// `s` is a solution reached from `b` by filling empty cells only.
pub open spec fn solves(s: Seq<u8>, b: Seq<u8>) -> bool {
    is_solution(s) && extends(s, b)
}

/// `b` has exactly one completion.
pub open spec fn has_unique_solution(b: Seq<u8>) -> bool {
    exists|s: Seq<u8>| #[trigger] solves(s, b) && forall|t: Seq<u8>| #[trigger] solves(t, b) ==> t == s
}

/// Number of filled cells among the first `n`.
pub open spec fn clues_upto(b: Seq<u8>, n: nat) -> nat
    decreases n,
{
    if n == 0 {
        0
    } else {
        clues_upto(b, (n - 1) as nat) + if b[n - 1] != 0 { 1nat } else { 0nat }
    }
}

/// Number of filled cells of a board.
pub open spec fn clue_count(b: Seq<u8>) -> nat {
    clues_upto(b, 81)
}

/// In a solution every cell holds a digit, and two cells of one row, one column or one box
/// hold different digits.
pub proof fn lemma_solution_has_no_duplicate(s: Seq<u8>, i: int, j: int)
    requires
        is_solution(s),
        0 <= i < 81,
        0 <= j < 81,
        i != j,
        row_of(i) == row_of(j) || col_of(i) == col_of(j) || box_of(i) == box_of(j),
    ensures
        1 <= s[i] <= 9,
        s[i] != s[j],
{
    assert(s[i] != 0);
    assert(legal(s, i, s[i]));
    assert(peers(i, j));
    assert(s[j] != s[i]);
}

/// The verdict on a digit at a cell rests on the contents of the board, the cell and the
/// digit alone: asked twice about the same, the checker answers the same.
pub proof fn lemma_verdict_is_repeatable(first: Seq<u8>, second: Seq<u8>, index: int, value: u8)
    requires
        first =~= second,
    ensures
        legal(first, index, value) == legal(second, index, value),
{
}

/// Every solution of a board gives each cell a digit that is legal on that board.
pub proof fn lemma_solution_digit_is_legal(s: Seq<u8>, b: Seq<u8>, i: int)
    requires
        solves(s, b),
        0 <= i < 81,
    ensures
        1 <= s[i] <= 9,
        legal(b, i, s[i]),
{
    assert(s[i] != 0);
    assert(legal(s, i, s[i]));
    assert forall|j: int| 0 <= j < 81 && peers(i, j) implies #[trigger] b[j] != s[i] by {
        assert(s[j] != s[i]);
        if b[j] != 0 {
            assert(s[j] == b[j]);
        }
    }
}

/// A board that has a solution is valid.
pub proof fn lemma_solvable_is_consistent(s: Seq<u8>, b: Seq<u8>)
    requires
        solves(s, b),
        b.len() == 81,
    ensures
        consistent(b),
{
    assert forall|i: int| 0 <= i < 81 implies #[trigger] b[i] <= 9 by {
        if b[i] != 0 {
            assert(s[i] == b[i]);
        }
    }
    assert forall|i: int| 0 <= i < 81 && #[trigger] b[i] != 0 implies legal(b, i, b[i]) by {
        lemma_solution_digit_is_legal(s, b, i);
    }
}

/// Writing a legal digit into a cell keeps a board valid.
pub proof fn lemma_place_keeps_consistent(b: Seq<u8>, i: int, v: u8)
    requires
        consistent(b),
        0 <= i < 81,
        1 <= v <= 9,
        legal(b, i, v),
    ensures
        consistent(b.update(i, v)),
{
    let c = b.update(i, v);
    assert forall|k: int| 0 <= k < 81 implies #[trigger] c[k] <= 9 by {
        if k != i {
            assert(b[k] <= 9);
        }
    }
    assert forall|k: int| 0 <= k < 81 && #[trigger] c[k] != 0 implies legal(c, k, c[k]) by {
        assert forall|j: int| 0 <= j < 81 && peers(k, j) implies #[trigger] c[j] != c[k] by {
            if k == i {
                assert(b[j] != v);
            } else if j == i {
                assert(peers(i, k));
                assert(b[k] != v);
            } else {
                assert(b[k] != 0);
                assert(legal(b, k, b[k]));
                assert(b[j] != b[k]);
            }
        }
    }
}

/// Emptying a cell keeps a board valid.
pub proof fn lemma_clear_keeps_consistent(b: Seq<u8>, i: int)
    requires
        consistent(b),
        0 <= i < 81,
    ensures
        consistent(b.update(i, 0)),
{
    let c = b.update(i, 0);
    assert forall|k: int| 0 <= k < 81 implies #[trigger] c[k] <= 9 by {
        if k != i {
            assert(b[k] <= 9);
        }
    }
    assert forall|k: int| 0 <= k < 81 && #[trigger] c[k] != 0 implies legal(c, k, c[k]) by {
        assert(b[k] != 0);
        assert(legal(b, k, b[k]));
        assert forall|j: int| 0 <= j < 81 && peers(k, j) implies #[trigger] c[j] != c[k] by {
            if j != i {
                assert(b[j] != b[k]);
            }
        }
    }
}

/// A complete board has one extension of its own length: itself.
pub proof fn lemma_complete_board_is_its_only_extension(s: Seq<u8>, b: Seq<u8>)
    requires
        complete(b),
        extends(s, b),
        s.len() == 81,
        b.len() == 81,
    ensures
        s == b,
{
    assert forall|i: int| 0 <= i < 81 implies s[i] == b[i] by {
        assert(b[i] != 0);
    }
    assert(s =~= b);
}

/// A solution is a board with exactly one completion: itself.
pub proof fn lemma_solution_is_unique(b: Seq<u8>)
    requires
        is_solution(b),
    ensures
        has_unique_solution(b),
{
    assert(solves(b, b));
    assert forall|t: Seq<u8>| #[trigger] solves(t, b) implies t == b by {
        lemma_complete_board_is_its_only_extension(t, b);
    }
}

/// What `candidates_upto` holds: exactly the legal digits of `1..=n`, strictly ascending.
pub proof fn lemma_candidates_upto(b: Seq<u8>, i: int, n: nat)
    requires
        n <= 9,
    ensures
        candidates_upto(b, i, n).len() <= n,
        forall|k: int|
            0 <= k < candidates_upto(b, i, n).len() ==> {
                let v = #[trigger] candidates_upto(b, i, n)[k];
                1 <= v <= n && legal(b, i, v)
            },
        forall|j: int, k: int|
            0 <= j < k < candidates_upto(b, i, n).len() ==> candidates_upto(b, i, n)[j]
                < candidates_upto(b, i, n)[k],
        forall|v: u8| 1 <= v <= n && legal(b, i, v) ==> candidates_upto(b, i, n).contains(v),
    decreases n,
{
    if n > 0 {
        let prev = candidates_upto(b, i, (n - 1) as nat);
        let cur = candidates_upto(b, i, n);
        lemma_candidates_upto(b, i, (n - 1) as nat);
        assert forall|v: u8| 1 <= v <= n && legal(b, i, v) implies cur.contains(v) by {
            if v == n {
                assert(cur[cur.len() - 1] == v);
            } else {
                assert(prev.contains(v));
                let k = choose|k: int| 0 <= k < prev.len() && prev[k] == v;
                assert(cur[k] == v);
            }
        }
    }
}

/// What the candidate set holds: exactly the legal digits, strictly ascending.
pub proof fn lemma_candidate_seq(b: Seq<u8>, i: int)
    ensures
        candidate_seq(b, i).len() <= 9,
        forall|k: int|
            0 <= k < candidate_seq(b, i).len() ==> {
                let v = #[trigger] candidate_seq(b, i)[k];
                1 <= v <= 9 && legal(b, i, v)
            },
        forall|j: int, k: int|
            0 <= j < k < candidate_seq(b, i).len() ==> candidate_seq(b, i)[j] < candidate_seq(
                b,
                i,
            )[k],
        forall|v: u8| 1 <= v <= 9 && legal(b, i, v) ==> candidate_seq(b, i).contains(v),
{
    lemma_candidates_upto(b, i, 9);
}

/// A board never holds more clues than cells counted.
pub proof fn lemma_clues_upto_bound(b: Seq<u8>, n: nat)
    ensures
        clues_upto(b, n) <= n,
    decreases n,
{
    if n > 0 {
        lemma_clues_upto_bound(b, (n - 1) as nat);
    }
}

/// How rewriting one cell changes the count of filled cells among the first `n`.
pub proof fn lemma_clues_upto_update(b: Seq<u8>, i: int, v: u8, n: nat)
    requires
        0 <= i < b.len(),
        n <= b.len(),
    ensures
        clues_upto(b.update(i, v), n) + (if i < n && b[i] != 0 { 1int } else { 0int })
            == clues_upto(b, n) + (if i < n && v != 0 { 1int } else { 0int }),
    decreases n,
{
    if n > 0 {
        lemma_clues_upto_update(b, i, v, (n - 1) as nat);
    }
}

/// How rewriting one cell changes the count of filled cells.
pub proof fn lemma_clue_count_update(b: Seq<u8>, i: int, v: u8)
    requires
        b.len() == 81,
        0 <= i < 81,
    ensures
        clue_count(b.update(i, v)) + (if b[i] != 0 { 1int } else { 0int }) == clue_count(b) + (if v
            != 0 { 1int } else { 0int }),
        clue_count(b) <= 81,
        b[i] == 0 ==> clue_count(b) <= 80,
{
    lemma_clues_upto_update(b, i, v, 81);
    lemma_clues_upto_update(b, i, 1, 81);
    lemma_clues_upto_bound(b, 81);
    lemma_clues_upto_bound(b.update(i, 1), 81);
}

/// Place of a cell within its box, row-major, `0..9`.
#[verifier::opaque]
spec fn box_slot(c: int) -> int {
    3 * (row_of(c) % 3) + col_of(c) % 3
}

/// The cell at place `k` of box `bx`.
#[verifier::opaque]
spec fn box_cell(bx: int, k: int) -> int {
    27 * (bx / 3) + 3 * (bx % 3) + 9 * (k / 3) + k % 3
}

/// A cell is the one at its own place in its own box.
proof fn lemma_cell_in_box(c: int)
    requires
        0 <= c < 81,
    ensures
        0 <= box_slot(c) < 9,
        0 <= box_of(c) < 9,
        box_cell(box_of(c), box_slot(c)) == c,
{
    reveal(box_slot);
    reveal(box_cell);
    let r = c / 9;
    let col = c % 9;
    let br = r / 3;
    let rr = r % 3;
    let bc = col / 3;
    let cc = col % 3;
    assert(c == 9 * r + col);
    assert(r == 3 * br + rr);
    assert(col == 3 * bc + cc);
    let bx = 3 * br + bc;
    let k = 3 * rr + cc;
    assert(bx / 3 == br && bx % 3 == bc);
    assert(k / 3 == rr && k % 3 == cc);
}

/// The cell at place `k` of box `bx` lies in that box at that place.
proof fn lemma_box_holds_cell(bx: int, k: int)
    requires
        0 <= bx < 9,
        0 <= k < 9,
    ensures
        0 <= box_cell(bx, k) < 81,
        box_of(box_cell(bx, k)) == bx,
        box_slot(box_cell(bx, k)) == k,
{
    reveal(box_slot);
    reveal(box_cell);
    let br = bx / 3;
    let bc = bx % 3;
    let rr = k / 3;
    let cc = k % 3;
    let r = 3 * br + rr;
    let col = 3 * bc + cc;
    let c = 9 * r + col;
    assert(box_cell(bx, k) == c);
    assert(0 <= col < 9);
    assert(0 <= r < 9);
    assert(c / 9 == r && c % 9 == col);
    assert(r / 3 == br && r % 3 == rr);
    assert(col / 3 == bc && col % 3 == cc);
}

/// Boxes and places number the cells one to one.
proof fn lemma_box_layout()
    ensures
        forall|c: int|
            0 <= c < 81 ==> 0 <= #[trigger] box_slot(c) < 9 && 0 <= box_of(c) < 9 && box_cell(
                box_of(c),
                box_slot(c),
            ) == c,
        forall|bx: int, k: int|
            0 <= bx < 9 && 0 <= k < 9 ==> 0 <= #[trigger] box_cell(bx, k) < 81 && box_of(
                box_cell(bx, k),
            ) == bx && box_slot(box_cell(bx, k)) == k,
{
    assert forall|c: int| 0 <= c < 81 implies 0 <= #[trigger] box_slot(c) < 9 && 0 <= box_of(c)
        < 9 && box_cell(box_of(c), box_slot(c)) == c by {
        lemma_cell_in_box(c);
    }
    assert forall|bx: int, k: int| 0 <= bx < 9 && 0 <= k < 9 implies 0 <= #[trigger] box_cell(
        bx,
        k,
    ) < 81 && box_of(box_cell(bx, k)) == bx && box_slot(box_cell(bx, k)) == k by {
        lemma_box_holds_cell(bx, k);
    }
}

/// The cell that the box scan of `validate_candidate` visits at step `k`.
proof fn lemma_box_cell_formula(index: int, k: int)
    requires
        0 <= index < 81,
        0 <= k < 9,
    ensures
        3 * (9 * ((index / 9) / 3) + (index % 9) / 3) + (9 * (k / 3) + (k % 3)) == box_cell(
            box_of(index),
            k,
        ),
{
    reveal(box_cell);
}

/// Whether `value` may stand at `index`: no other cell of its row, column or box holds it.
pub fn validate_candidate(grid: &Cells, index: usize, value: u8) -> (ok: bool)
    requires
        index < 81,
    ensures
        ok == legal(grid@, index as int, value),
{
    let column_index = index % 9;
    for i in 0usize..9
        invariant
            index < 81,
            column_index == index % 9,
            forall|j: int|
                0 <= j < 81 && j != index && col_of(j) == column_index && row_of(j) < i
                    ==> #[trigger] grid@[j] != value,
    {
        let cell = 9 * i + column_index;
        if cell != index && grid[cell] == value {
            assert(peers(index as int, cell as int));
            return false;
        }
    }
    let row_index = index / 9;
    for j in 0usize..9
        invariant
            index < 81,
            column_index == index % 9,
            row_index == index / 9,
            forall|k: int|
                0 <= k < 81 && k != index && col_of(k) == column_index ==> #[trigger] grid@[k]
                    != value,
            forall|k: int|
                0 <= k < 81 && k != index && row_of(k) == row_index && col_of(k) < j
                    ==> #[trigger] grid@[k] != value,
    {
        let cell = 9 * row_index + j;
        if cell != index && grid[cell] == value {
            assert(peers(index as int, cell as int));
            return false;
        }
    }
    let band_index = row_index / 3;
    let stack_index = column_index / 3;
    proof {
        lemma_box_layout();
    }
    for k in 0usize..9
        invariant
            index < 81,
            column_index == index % 9,
            row_index == index / 9,
            band_index == row_index / 3,
            stack_index == column_index / 3,
            forall|c: int|
                0 <= c < 81 && c != index && col_of(c) == column_index ==> #[trigger] grid@[c]
                    != value,
            forall|c: int|
                0 <= c < 81 && c != index && row_of(c) == row_index ==> #[trigger] grid@[c]
                    != value,
            forall|c: int|
                0 <= c < 81 && c != index && box_of(c) == box_of(index as int) && box_slot(c) < k
                    ==> #[trigger] grid@[c] != value,
    {
        let cell = 3 * (9 * band_index + stack_index) + (9 * (k / 3) + (k % 3));
        proof {
            lemma_box_cell_formula(index as int, k as int);
            lemma_box_layout();
        }
        if cell != index && grid[cell] == value {
            assert(peers(index as int, cell as int));
            return false;
        }
    }
    proof {
        lemma_box_layout();
    }
    true
}

/// The candidate set of a cell: the digits `1..=9` that pass `validate_candidate`, ascending.
pub fn get_candidates(grid: &Cells, index: usize) -> (candidates: Vec<u8>)
    requires
        index < 81,
    ensures
        candidates@ == candidate_seq(grid@, index as int),
{
    let mut candidates: Vec<u8> = Vec::new();
    for i in 1u8..10
        invariant
            index < 81,
            candidates@ == candidates_upto(grid@, index as int, (i - 1) as nat),
    {
        if validate_candidate(grid, index, i) {
            candidates.push(i);
        }
    }
    candidates
}

/// Whether every cell is in `0..=9`.
pub fn is_in_range(grid: &Cells) -> (ok: bool)
    ensures
        ok == in_range(grid@),
{
    for i in 0usize..81
        invariant
            forall|k: int| 0 <= k < i ==> #[trigger] grid@[k] <= 9,
    {
        if grid[i] > 9 {
            return false;
        }
    }
    true
}

/// Whether a board is valid: every cell in `0..=9`, no digit twice in a row, column or box.
pub fn is_consistent(grid: &Cells) -> (ok: bool)
    ensures
        ok == consistent(grid@),
{
    for i in 0usize..81
        invariant
            forall|k: int| 0 <= k < i ==> #[trigger] grid@[k] <= 9,
            forall|k: int| 0 <= k < i && #[trigger] grid@[k] != 0 ==> legal(grid@, k, grid@[k]),
    {
        let value = grid[i];
        if value > 9 {
            return false;
        }
        if value != 0 && !validate_candidate(grid, i, value) {
            return false;
        }
    }
    true
}

/// The number of filled cells.
pub fn count_clues(grid: &Cells) -> (count: usize)
    ensures
        count == clue_count(grid@),
        count <= 81,
{
    let mut count: usize = 0;
    for i in 0usize..81
        invariant
            count == clues_upto(grid@, i as nat),
            count <= i,
    {
        if grid[i] != 0 {
            count += 1;
        }
    }
    count
}

/// One decimal digit as text.
pub open spec fn digit_text(d: u8) -> Seq<char> {
    if d == 0 {
        "0"@
    } else if d == 1 {
        "1"@
    } else if d == 2 {
        "2"@
    } else if d == 3 {
        "3"@
    } else if d == 4 {
        "4"@
    } else if d == 5 {
        "5"@
    } else if d == 6 {
        "6"@
    } else if d == 7 {
        "7"@
    } else if d == 8 {
        "8"@
    } else {
        "9"@
    }
}

/// What a cell shows: a blank where it is empty, else its value in decimal.
pub open spec fn cell_text(v: u8) -> Seq<char> {
    if v == 0 {
        " "@
    } else if v < 10 {
        digit_text(v)
    } else if v < 100 {
        digit_text(v / 10) + digit_text(v % 10)
    } else {
        digit_text(v / 100) + digit_text(v / 10 % 10) + digit_text(v % 10)
    }
}

/// The bar after cell `j` of a row: double at the edge of a box, none after the last cell.
pub open spec fn bar_after(j: int) -> Seq<char> {
    if j >= 8 {
        Seq::empty()
    } else if (j + 1) % 3 == 0 {
        "║"@
    } else {
        "│"@
    }
}

/// The line after row `i`: double at the edge of a box, none after the last row.
pub open spec fn line_after(i: int) -> Seq<char> {
    if i >= 8 {
        Seq::empty()
    } else if (i + 1) % 3 == 0 {
        "╠═══╪═══╪═══╬═══╪═══╪═══╬═══╪═══╪═══╣\n"@
    } else {
        "╟───┼───┼───╫───┼───┼───╫───┼───┼───╢\n"@
    }
}

/// A row up to and without its cell `n`: the left edge, then each cell between two blanks
/// with the bar that follows it.
pub open spec fn cells_text(b: Seq<u8>, row: int, n: nat) -> Seq<char>
    decreases n,
{
    if n == 0 {
        "║"@
    } else {
        cells_text(b, row, (n - 1) as nat) + " "@ + cell_text(b[9 * row + n - 1]) + " "@
            + bar_after(n - 1)
    }
}

/// The rows up to and without row `n`, each closed by the right edge and followed by its line.
pub open spec fn rows_text(b: Seq<u8>, n: nat) -> Seq<char>
    decreases n,
{
    if n == 0 {
        Seq::empty()
    } else {
        rows_text(b, (n - 1) as nat) + cells_text(b, n - 1, 9) + "║\n"@ + line_after(n - 1)
    }
}

/// The board as a framed grid of 19 lines, without a line end after the last.
pub open spec fn rendering(b: Seq<u8>) -> Seq<char> {
    "╔═══╤═══╤═══╦═══╤═══╤═══╦═══╤═══╤═══╗\n"@ + rows_text(b, 9)
        + "╚═══╧═══╧═══╩═══╧═══╧═══╩═══╧═══╧═══╝"@
}

/// One decimal digit as text.
fn digit_str(d: u8) -> (text: &'static str)
    requires
        d < 10,
    ensures
        text@ == digit_text(d),
{
    if d == 0 {
        "0"
    } else if d == 1 {
        "1"
    } else if d == 2 {
        "2"
    } else if d == 3 {
        "3"
    } else if d == 4 {
        "4"
    } else if d == 5 {
        "5"
    } else if d == 6 {
        "6"
    } else if d == 7 {
        "7"
    } else if d == 8 {
        "8"
    } else {
        "9"
    }
}

/// Appends what a cell shows.
fn push_cell(result: &mut String, cell: u8)
    ensures
        final(result)@ == old(result)@ + cell_text(cell),
{
    if cell == 0 {
        result.append(" ");
    } else if cell < 10 {
        result.append(digit_str(cell));
    } else if cell < 100 {
        result.append(digit_str(cell / 10));
        result.append(digit_str(cell % 10));
        assert(result@ =~= old(result)@ + cell_text(cell));
    } else {
        result.append(digit_str(cell / 100));
        result.append(digit_str(cell / 10 % 10));
        result.append(digit_str(cell % 10));
        assert(result@ =~= old(result)@ + cell_text(cell));
    }
}

/// The board as text: a framed grid, boxes set apart by double lines, empty cells blank.
pub fn render_grid(cells: &Cells) -> (text: String)
    ensures
        text@ == rendering(cells@),
{
    let mut result: String = String::new();
    result.append("╔═══╤═══╤═══╦═══╤═══╤═══╦═══╤═══╤═══╗\n");
    let ghost top = result@;
    assert(top =~= "╔═══╤═══╤═══╦═══╤═══╤═══╦═══╤═══╤═══╗\n"@);
    assert(result@ =~= top + rows_text(cells@, 0));
    for i in 0usize..9
        invariant
            result@ == top + rows_text(cells@, i as nat),
    {
        let ghost done = result@;
        result.append("║");
        assert(result@ =~= done + cells_text(cells@, i as int, 0));
        for j in 0usize..9
            invariant
                i < 9,
                result@ == done + cells_text(cells@, i as int, j as nat),
        {
            let ghost row = result@;
            let cell = cells[i * 9 + j];
            result.append(" ");
            push_cell(&mut result, cell);
            result.append(" ");
            if j < 8 {
                if (j + 1) % 3 == 0 {
                    result.append("║");
                } else {
                    result.append("│");
                }
            }
            assert(result@ =~= row + " "@ + cell_text(cell) + " "@ + bar_after(j as int));
            assert(result@ =~= done + cells_text(cells@, i as int, (j + 1) as nat));
        }
        result.append("║\n");
        if i < 8 {
            if (i + 1) % 3 == 0 {
                result.append("╠═══╪═══╪═══╬═══╪═══╪═══╬═══╪═══╪═══╣\n");
            } else {
                result.append("╟───┼───┼───╫───┼───┼───╫───┼───┼───╢\n");
            }
        }
        assert(result@ =~= done + cells_text(cells@, i as int, 9) + "║\n"@ + line_after(i as int));
        assert(result@ =~= top + rows_text(cells@, (i + 1) as nat));
    }
    result.append("╚═══╧═══╧═══╩═══╧═══╧═══╩═══╧═══╧═══╝");
    result
}

} // verus!
