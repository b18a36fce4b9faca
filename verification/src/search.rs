//! What a search for solutions hands back, and what follows from it.

use crate::utils::{has_unique_solution, solves, Cells};
use vstd::prelude::*;

verus! {

/// The boards of `found`, in their order.
pub open spec fn boards(found: Seq<Cells>) -> Seq<Seq<u8>> {
    Seq::new(found.len(), |k: int| found[k]@)
}

/// The board `s` is one of `found`.
pub open spec fn recorded(found: Seq<Cells>, s: Seq<u8>) -> bool {
    exists|k: int| 0 <= k < found.len() && (#[trigger] found[k])@ == s
}

/// Each of `found` is a solution of `b`.
pub open spec fn all_solve(found: Seq<Cells>, b: Seq<u8>) -> bool {
    forall|k: int| 0 <= k < found.len() ==> solves((#[trigger] found[k])@, b)
}

/// No board occurs twice in `found`.
pub open spec fn all_distinct(found: Seq<Cells>) -> bool {
    forall|j: int, k: int|
        0 <= j < k < found.len() ==> (#[trigger] found[j])@ != (#[trigger] found[k])@
}

/// Every solution of `b` is one of `found`.
pub open spec fn exhaustive(found: Seq<Cells>, b: Seq<u8>) -> bool {
    forall|s: Seq<u8>| #[trigger] solves(s, b) ==> recorded(found, s)
}

/// `order` names each solution of `b` once, and nothing else.
pub open spec fn lists_solutions(order: Seq<Seq<u8>>, b: Seq<u8>) -> bool {
    &&& order.no_duplicates()
    &&& forall|k: int| 0 <= k < order.len() ==> solves(#[trigger] order[k], b)
    &&& forall|s: Seq<u8>| #[trigger] solves(s, b) ==> order.contains(s)
}

/// `found` is what a search on `b` returns: distinct solutions of `b`; all of them, unless the
/// search was told to stop at the first solution and holds one, or at the second and holds two.
/// Stopping at the first takes precedence.
pub open spec fn search_result(
    b: Seq<u8>,
    stop_at_first: bool,
    stop_at_second: bool,
    found: Seq<Cells>,
) -> bool {
    &&& all_solve(found, b)
    &&& all_distinct(found)
    &&& if stop_at_first {
        found.len() == 1 || (found.len() == 0 && exhaustive(found, b))
    } else if stop_at_second {
        found.len() == 2 || (found.len() < 2 && exhaustive(found, b))
    } else {
        exhaustive(found, b)
    }
}

/// How many boards a search returns on a board with `total` solutions: one where it stops at
/// the first, two where it stops at the second, all of them where it does not stop; and no
/// more than there are.
pub open spec fn stop_limit(stop_at_first: bool, stop_at_second: bool, total: nat) -> nat {
    if stop_at_first && total >= 1 {
        1
    } else if !stop_at_first && stop_at_second && total >= 2 {
        2
    } else {
        total
    }
}

/// A search whose boards begin a list that names each solution once returns the first boards
/// of that list: the first, the first two, or all of them.
pub proof fn lemma_search_returns_first(
    b: Seq<u8>,
    stop_at_first: bool,
    stop_at_second: bool,
    found: Seq<Cells>,
    order: Seq<Seq<u8>>,
)
    requires
        search_result(b, stop_at_first, stop_at_second, found),
        boards(found).is_prefix_of(order),
        lists_solutions(order, b),
    ensures
        found.len() == stop_limit(stop_at_first, stop_at_second, order.len()),
        boards(found) == order.take(found.len() as int),
{
    let n = found.len() as int;
    assert(boards(found) =~= order.take(n));
    if exhaustive(found, b) && n < order.len() {
        let extra = order[n];
        assert(solves(extra, b));
        assert(recorded(found, extra));
        let k = choose|k: int| 0 <= k < found.len() && (#[trigger] found[k])@ == extra;
        assert(boards(found)[k] == order.take(n)[k]);
        assert(order[k] == order[n]);
    }
}

/// On a board without a solution every search returns nothing, whatever its flags.
pub proof fn lemma_no_solution_gives_none(
    b: Seq<u8>,
    stop_at_first: bool,
    stop_at_second: bool,
    found: Seq<Cells>,
)
    requires
        search_result(b, stop_at_first, stop_at_second, found),
        forall|s: Seq<u8>| !solves(s, b),
    ensures
        found.len() == 0,
{
    if found.len() > 0 {
        assert(solves(found[0]@, b));
    }
}

/// On a board with exactly one solution every search returns that solution and nothing else,
/// whatever its flags.
pub proof fn lemma_unique_solution_gives_one(
    b: Seq<u8>,
    stop_at_first: bool,
    stop_at_second: bool,
    found: Seq<Cells>,
    only: Seq<u8>,
)
    requires
        search_result(b, stop_at_first, stop_at_second, found),
        solves(only, b),
        forall|s: Seq<u8>| #[trigger] solves(s, b) ==> s == only,
    ensures
        found.len() == 1,
        found[0]@ == only,
{
    if found.len() == 0 {
        assert(recorded(found, only));
    }
    assert(solves(found[0]@, b));
    if found.len() >= 2 {
        assert(solves(found[1]@, b));
    }
}

/// On a board with two or more solutions, a search that stops at the first returns one board,
/// and a search that stops at the second only returns two.
pub proof fn lemma_early_stop(
    b: Seq<u8>,
    stop_at_first: bool,
    stop_at_second: bool,
    found: Seq<Cells>,
    one: Seq<u8>,
    other: Seq<u8>,
)
    requires
        search_result(b, stop_at_first, stop_at_second, found),
        solves(one, b),
        solves(other, b),
        one != other,
    ensures
        stop_at_first ==> found.len() == 1,
        !stop_at_first && stop_at_second ==> found.len() == 2,
        !stop_at_first && !stop_at_second ==> found.len() >= 2,
{
    if exhaustive(found, b) {
        assert(recorded(found, one));
        assert(recorded(found, other));
    }
}

/// A search with both flags off returns as many boards as the board has solutions: as many
/// as any list holds that names each solution once.
pub proof fn lemma_full_enumeration(b: Seq<u8>, found: Seq<Cells>, known: Seq<Seq<u8>>)
    requires
        search_result(b, false, false, found),
        known.no_duplicates(),
        forall|k: int| 0 <= k < known.len() ==> solves(#[trigger] known[k], b),
        forall|s: Seq<u8>| #[trigger] solves(s, b) ==> known.contains(s),
    ensures
        found.len() == known.len(),
        boards(found).to_set() == known.to_set(),
{
    let listed = boards(found);
    assert forall|j: int, k: int| 0 <= j < listed.len() && 0 <= k < listed.len() && j != k implies listed[j]
        != listed[k] by {
        if j < k {
            assert(found[j]@ != found[k]@);
        } else {
            assert(found[k]@ != found[j]@);
        }
    }
    assert forall|s: Seq<u8>| listed.to_set().contains(s) <==> known.to_set().contains(s) by {
        if listed.contains(s) {
            let k = choose|k: int| 0 <= k < listed.len() && listed[k] == s;
            assert(solves(found[k]@, b));
        }
        if known.contains(s) {
            let k = choose|k: int| 0 <= k < known.len() && known[k] == s;
            assert(solves(known[k], b));
            assert(recorded(found, s));
            let j = choose|j: int| 0 <= j < found.len() && (#[trigger] found[j])@ == s;
            assert(listed[j] == s);
        }
    }
    assert(listed.to_set() =~= known.to_set());
    listed.unique_seq_to_set();
    known.unique_seq_to_set();
}

/// Two searches with both flags off return the same boards, however each of them goes
/// about its search.
pub proof fn lemma_full_searches_agree(b: Seq<u8>, one: Seq<Cells>, other: Seq<Cells>)
    requires
        search_result(b, false, false, one),
        search_result(b, false, false, other),
    ensures
        one.len() == other.len(),
        boards(one).to_set() == boards(other).to_set(),
{
    let known = boards(other);
    assert forall|j: int, k: int| 0 <= j < known.len() && 0 <= k < known.len() && j != k implies known[j]
        != known[k] by {
        if j < k {
            assert(other[j]@ != other[k]@);
        } else {
            assert(other[k]@ != other[j]@);
        }
    }
    assert forall|k: int| 0 <= k < known.len() implies solves(#[trigger] known[k], b) by {
        assert(solves(other[k]@, b));
    }
    assert forall|s: Seq<u8>| #[trigger] solves(s, b) implies known.contains(s) by {
        assert(recorded(other, s));
        let j = choose|j: int| 0 <= j < other.len() && (#[trigger] other[j])@ == s;
        assert(known[j] == s);
    }
    lemma_full_enumeration(b, one, known);
}

/// A search that does not stop at the first solution tells whether a board has exactly one:
/// it returns one board if and only if the board has exactly one solution.
pub proof fn lemma_uniqueness_oracle(b: Seq<u8>, stop_at_second: bool, found: Seq<Cells>)
    requires
        search_result(b, false, stop_at_second, found),
    ensures
        found.len() == 1 <==> has_unique_solution(b),
{
    if found.len() == 1 {
        let only = found[0]@;
        assert(solves(only, b));
        assert forall|t: Seq<u8>| #[trigger] solves(t, b) implies t == only by {
            assert(recorded(found, t));
        }
    }
    if has_unique_solution(b) {
        let only = choose|s: Seq<u8>| #[trigger]
            solves(s, b) && forall|t: Seq<u8>| #[trigger] solves(t, b) ==> t == s;
        lemma_unique_solution_gives_one(b, false, stop_at_second, found, only);
    }
}

} // verus!
