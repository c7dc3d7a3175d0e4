//! Backtracking search: fills the blanks of a board in index order, with the
//! smallest digits that the rules allow.

use crate::board::{all_cells, taken, Board};
use crate::cell::{is_solved, lemma_singleton_is_solved, value_of};
use crate::geometry::{lemma_cell_in_unit, unit_cells, unit_of, Orientation};
use crate::grid::{grid_wf, on_board, solved_values, unit_view, unsolved, Grid};
use vstd::prelude::*;

verus! {

/// The blanks of a grid: its unsolved cells, in index order.
pub open spec fn blanks_of(g: Grid) -> Seq<u8> {
    unsolved(g, all_cells())
}

/// The grid with the first blanks filled: blank `j` has the digit `fill[j]`
/// as its only candidate, for each `j` that `fill` reaches.
pub open spec fn filled(g: Grid, blanks: Seq<u8>, fill: Seq<u8>) -> Grid
    decreases fill.len(),
{
    if fill.len() == 0 {
        g
    } else {
        filled(g, blanks, fill.drop_last()).update(
            blanks[fill.len() - 1] as int,
            set![fill.last()],
        )
    }
}

/// Every digit of the fill is one of `1` to `9` and was free in the row, the
/// column and the block of its blank when the blanks before it were filled.
pub open spec fn valid_fill(g: Grid, blanks: Seq<u8>, fill: Seq<u8>) -> bool
    decreases fill.len(),
{
    fill.len() == 0 || {
        &&& valid_fill(g, blanks, fill.drop_last())
        &&& 1 <= fill.last() <= 9
        &&& !taken(
            filled(g, blanks, fill.drop_last()),
            blanks[fill.len() - 1] as int,
            fill.last(),
        )
    }
}

/// A solution: a valid fill of all the blanks.
pub open spec fn is_solution(g: Grid, fill: Seq<u8>) -> bool {
    fill.len() == blanks_of(g).len() && valid_fill(g, blanks_of(g), fill)
}

/// The first of two sequences of one length comes before the second in
/// lexicographic order.
pub open spec fn comes_before(a: Seq<u8>, b: Seq<u8>) -> bool {
    exists|k: int| 0 <= k < a.len() && k < b.len() && a.take(k) == b.take(k) && a[k] < b[k]
}

/// A solution that no other solution comes before.
pub open spec fn is_first_solution(g: Grid, fill: Seq<u8>) -> bool {
    &&& is_solution(g, fill)
    &&& forall|other: Seq<u8>| #[trigger] is_solution(g, other) ==> !comes_before(other, fill)
}

/// Whether the blanks can be filled at all.
pub open spec fn solvable(g: Grid) -> bool {
    exists|fill: Seq<u8>| is_solution(g, fill)
}

/// The first solution of a grid that has one.
pub open spec fn first_solution(g: Grid) -> Seq<u8> {
    choose|fill: Seq<u8>| is_first_solution(g, fill)
}

/// The largest of the digits `1` to `n` that is free for cell `i`, or `0`
/// where none is.
pub open spec fn last_free(g: Grid, i: int, n: int) -> int
    decreases n,
{
    if n <= 0 {
        0
    } else if !taken(g, i, n as u8) {
        n
    } else {
        last_free(g, i, n - 1)
    }
}

/// Where the search leaves a grid that has no solution: the first blank
/// holds the largest digit that is free for it, if any is.
pub open spec fn stuck(g: Grid) -> Grid {
    let first = blanks_of(g)[0] as int;
    let digit = last_free(g, first, 9);
    if digit == 0 {
        g
    } else {
        g.update(first, set![digit as u8])
    }
}

/// Of two different sequences of one length, one comes before the other.
pub proof fn lemma_order_total(a: Seq<u8>, b: Seq<u8>)
    requires
        a.len() == b.len(),
        a != b,
    ensures
        comes_before(a, b) || comes_before(b, a),
    decreases a.len(),
{
    if a.len() == 0 {
        assert(a =~= b);
    } else {
        let a0 = a.drop_last();
        let b0 = b.drop_last();
        let n = a.len() - 1;
        if a0 == b0 {
            assert(a.take(n) =~= a0);
            assert(b.take(n) =~= b0);
            if a[n] == b[n] {
                assert(a =~= a0.push(a[n]));
                assert(b =~= b0.push(b[n]));
            } else if a[n] < b[n] {
                assert(a.take(n) == b.take(n) && a[n] < b[n]);
            } else {
                assert(b.take(n) == a.take(n) && b[n] < a[n]);
            }
        } else {
            lemma_order_total(a0, b0);
            if comes_before(a0, b0) {
                let k = choose|k: int|
                    0 <= k < a0.len() && k < b0.len() && a0.take(k) == b0.take(k) && a0[k] < b0[k];
                assert(a.take(k) =~= a0.take(k));
                assert(b.take(k) =~= b0.take(k));
                assert(a[k] < b[k]);
            } else {
                let k = choose|k: int|
                    0 <= k < b0.len() && k < a0.len() && b0.take(k) == a0.take(k) && b0[k] < a0[k];
                assert(a.take(k) =~= a0.take(k));
                assert(b.take(k) =~= b0.take(k));
                assert(b[k] < a[k]);
            }
        }
    }
}

/// A grid has at most one first solution.
pub proof fn lemma_first_solution_unique(g: Grid, a: Seq<u8>, b: Seq<u8>)
    requires
        is_first_solution(g, a),
        is_first_solution(g, b),
    ensures
        a == b,
{
    if a != b {
        lemma_order_total(a, b);
    }
}

/// The blanks of a grid are unsolved cells of the board, each listed once,
/// in increasing order.
pub proof fn lemma_blanks(g: Grid)
    requires
        g.len() == 81,
    ensures
        on_board(blanks_of(g)),
        blanks_of(g).len() <= 81,
        forall|j: int| 0 <= j < blanks_of(g).len() ==> !is_solved(g[#[trigger] blanks_of(g)[j] as int]),
        forall|j: int, k: int|
            0 <= j < k < blanks_of(g).len() ==> blanks_of(g)[j] < blanks_of(g)[k],
        forall|i: int|
            0 <= i < 81 && !is_solved(g[i]) ==> blanks_of(g).contains(i as u8),
{
    let keep = |c: u8| !is_solved(g[c as int]);
    lemma_filter_increasing(all_cells(), keep);
    let blanks = blanks_of(g);
    all_cells().lemma_filter_len(keep);
    assert forall|j: int| 0 <= j < blanks.len() implies !is_solved(g[#[trigger] blanks[j] as int])
        && blanks[j] <= 80 by {
        all_cells().lemma_filter_pred(keep, j);
        assert(blanks.contains(blanks[j]));
        all_cells().lemma_filter_contains_rev(keep, blanks[j]);
        let r = choose|r: int| 0 <= r < all_cells().len() && all_cells()[r] == blanks[j];
    }
    assert forall|i: int| 0 <= i < 81 && !is_solved(g[i]) implies blanks.contains(i as u8) by {
        assert(all_cells()[i] == i as u8);
        all_cells().lemma_filter_contains(keep, i);
    }
}

/// What is kept of an increasing sequence is increasing.
pub proof fn lemma_filter_increasing(s: Seq<u8>, keep: spec_fn(u8) -> bool)
    requires
        forall|j: int, k: int| 0 <= j < k < s.len() ==> s[j] < s[k],
    ensures
        forall|j: int, k: int|
            0 <= j < k < s.filter(keep).len() ==> s.filter(keep)[j] < s.filter(keep)[k],
        forall|j: int|
            0 <= j < s.filter(keep).len() && s.len() > 0 ==> #[trigger] s.filter(keep)[j]
                <= s.last(),
    decreases s.len(),
{
    reveal(Seq::filter);
    if s.len() > 0 {
        let front = s.drop_last();
        lemma_filter_increasing(front, keep);
        let kept = front.filter(keep);
        assert forall|j: int| 0 <= j < kept.len() implies #[trigger] kept[j] < s.last() by {
            assert(front.len() > 0) by {
                front.lemma_filter_len(keep);
            }
            assert(front.last() == s[s.len() - 2]);
        }
    }
}

/// What a partial fill leaves of a grid: the filled blanks hold their
/// digits, and every other cell is as it was.
pub proof fn lemma_filled(g: Grid, blanks: Seq<u8>, fill: Seq<u8>)
    requires
        g.len() == 81,
        on_board(blanks),
        fill.len() <= blanks.len(),
        forall|j: int, k: int| 0 <= j < k < blanks.len() ==> blanks[j] < blanks[k],
    ensures
        filled(g, blanks, fill).len() == 81,
        forall|j: int|
            0 <= j < fill.len() ==> filled(g, blanks, fill)[#[trigger] blanks[j] as int]
                == set![fill[j]],
        forall|i: int|
            0 <= i < 81 && !blanks.take(fill.len() as int).contains(i as u8) ==> #[trigger] filled(
                g,
                blanks,
                fill,
            )[i] == g[i],
    decreases fill.len(),
{
    if fill.len() > 0 {
        let n = fill.len() - 1;
        let front = fill.drop_last();
        lemma_filled(g, blanks, front);
        let before = filled(g, blanks, front);
        let after = filled(g, blanks, fill);
        assert forall|j: int| 0 <= j < fill.len() implies after[#[trigger] blanks[j] as int]
            == set![fill[j]] by {
            if j < n {
                assert(blanks[j] < blanks[n]);
                assert(front[j] == fill[j]);
            }
        }
        assert forall|i: int|
            0 <= i < 81 && !blanks.take(fill.len() as int).contains(i as u8) implies #[trigger] after[i]
            == g[i] by {
            assert(blanks.take(fill.len() as int)[n] == blanks[n]);
            assert(i != blanks[n]);
            if blanks.take(n).contains(i as u8) {
                let q = choose|q: int| 0 <= q < n && blanks.take(n)[q] == i as u8;
                assert(blanks.take(fill.len() as int)[q] == i as u8);
            }
        }
    }
}

/// A digit sequence read as a number in base eleven.
pub open spec fn numeral(s: Seq<u8>) -> int
    decreases s.len(),
{
    if s.len() == 0 {
        0
    } else {
        numeral(s.drop_last()) * 11 + s.last()
    }
}

/// `x` with `z` zeros behind it, in base eleven.
pub open spec fn shifted(x: int, z: nat) -> int
    decreases z,
{
    if z == 0 {
        x
    } else {
        shifted(x * 11, (z - 1) as nat)
    }
}

/// How far the search has come: the digits placed, then the digit to try
/// next, then zeros up to the number of blanks, read in base eleven.
pub open spec fn progress(prefix: Seq<u8>, next: int, n: int) -> int {
    shifted(numeral(prefix) * 11 + next, (n - 1 - prefix.len()) as nat)
}

/// Zeros behind two numbers keep their order.
proof fn lemma_shifted_monotonic(x: int, y: int, z: nat)
    requires
        x < y,
    ensures
        shifted(x, z) < shifted(y, z),
    decreases z,
{
    if z > 0 {
        lemma_shifted_monotonic(x * 11, y * 11, (z - 1) as nat);
    }
}

/// Zeros behind zeros are as many zeros at once.
proof fn lemma_shifted_compose(x: int, a: nat, z: nat)
    ensures
        shifted(x, a + z) == shifted(shifted(x, a), z),
    decreases a,
{
    if a > 0 {
        lemma_shifted_compose(x * 11, (a - 1) as nat, z);
        assert(shifted(x, a + z) == shifted(x * 11, (a + z - 1) as nat));
    }
}

/// A numeral with digits up to ten lies below a one with as many zeros.
proof fn lemma_numeral_bound(s: Seq<u8>)
    requires
        forall|j: int| 0 <= j < s.len() ==> #[trigger] s[j] <= 10,
    ensures
        0 <= numeral(s) < shifted(1, s.len()),
    decreases s.len(),
{
    if s.len() > 0 {
        let front = s.drop_last();
        assert forall|j: int| 0 <= j < front.len() implies #[trigger] front[j] <= 10 by {
            assert(front[j] == s[j]);
        }
        lemma_numeral_bound(front);
        lemma_shifted_compose(1, front.len(), 1);
        assert(shifted(shifted(1, front.len()), 1) == shifted(1, front.len()) * 11) by {
            assert(shifted(shifted(1, front.len()) * 11, 0) == shifted(1, front.len()) * 11);
        }
        assert(s[s.len() - 1] <= 10);
    }
}

/// The progress of a search position lies below the progress of any search
/// over as many blanks that has run out.
proof fn lemma_progress_bound(prefix: Seq<u8>, next: int, n: int)
    requires
        prefix.len() < n,
        0 <= next <= 10,
        forall|j: int| 0 <= j < prefix.len() ==> #[trigger] prefix[j] <= 10,
    ensures
        0 <= progress(prefix, next, n) < shifted(1, n as nat),
{
    let p = prefix.len();
    let z = (n - 1 - p) as nat;
    lemma_numeral_bound(prefix);
    let top = shifted(1, p);
    lemma_shifted_compose(1, p, 1);
    assert(shifted(top, 1) == top * 11) by {
        assert(shifted(top * 11, 0) == top * 11);
    }
    assert(numeral(prefix) * 11 + next < top * 11);
    lemma_shifted_monotonic(numeral(prefix) * 11 + next, top * 11, z);
    lemma_shifted_compose(1, (p + 1) as nat, z);
    if numeral(prefix) * 11 + next > 0 {
        lemma_shifted_monotonic(0, numeral(prefix) * 11 + next, z);
    }
    lemma_shifted_zero(z);
}

/// Zeros behind zero are zero.
proof fn lemma_shifted_zero(z: nat)
    ensures
        shifted(0, z) == 0,
    decreases z,
{
    if z > 0 {
        lemma_shifted_zero((z - 1) as nat);
    }
}

/// Trying the next digit is progress.
proof fn lemma_progress_next(prefix: Seq<u8>, next: int, n: int)
    requires
        prefix.len() < n,
    ensures
        progress(prefix, next, n) < progress(prefix, next + 1, n),
{
    lemma_shifted_monotonic(
        numeral(prefix) * 11 + next,
        numeral(prefix) * 11 + next + 1,
        (n - 1 - prefix.len()) as nat,
    );
}

/// Placing a digit and going on to the next blank is progress.
proof fn lemma_progress_advance(prefix: Seq<u8>, digit: u8, n: int)
    requires
        prefix.len() + 1 < n,
    ensures
        progress(prefix, digit as int, n) < progress(prefix.push(digit), 1, n),
{
    let longer = prefix.push(digit);
    let z = (n - 2 - prefix.len()) as nat;
    assert(longer.drop_last() =~= prefix);
    assert(numeral(longer) == numeral(prefix) * 11 + digit);
    assert(progress(prefix, digit as int, n) == shifted(numeral(longer) * 11, z));
    lemma_shifted_monotonic(numeral(longer) * 11, numeral(longer) * 11 + 1, z);
}

/// Going back a blank, to the digit after the one placed there, is
/// progress.
proof fn lemma_progress_back(prefix: Seq<u8>, next: int, n: int)
    requires
        0 < prefix.len() < n,
        next <= 10,
    ensures
        progress(prefix, next, n) < progress(prefix.drop_last(), prefix.last() + 1, n),
{
    let front = prefix.drop_last();
    let z = (n - 1 - prefix.len()) as nat;
    assert(numeral(prefix) == numeral(front) * 11 + prefix.last());
    assert(progress(front, prefix.last() + 1, n) == shifted((numeral(prefix) + 1) * 11, z));
    lemma_shifted_monotonic(numeral(prefix) * 11 + next, (numeral(prefix) + 1) * 11, z);
}

/// Putting a digit into an unsolved cell does not change which other digits
/// are solved among the given cells.
pub proof fn lemma_solved_values_own(g: Grid, cells: Seq<u8>, i: int, v: u8, d: u8)
    requires
        g.len() == 81,
        0 <= i <= 80,
        on_board(cells),
        !is_solved(g[i]),
        d != v,
    ensures
        solved_values(g.update(i, set![v]), cells).contains(d) == solved_values(g, cells).contains(
            d,
        ),
{
    let h = g.update(i, set![v]);
    let before = unit_view(g, cells);
    let after = unit_view(h, cells);
    lemma_singleton_is_solved(v);
    if solved_values(g, cells).contains(d) {
        let p = choose|p: int|
            0 <= p < before.len() && is_solved(#[trigger] before[p]) && before[p].contains(d);
        assert(cells[p] != i);
        assert(is_solved(after[p]) && after[p].contains(d));
    }
    if solved_values(h, cells).contains(d) {
        let p = choose|p: int|
            0 <= p < after.len() && is_solved(#[trigger] after[p]) && after[p].contains(d);
        assert(cells[p] != i);
        assert(is_solved(before[p]) && before[p].contains(d));
    }
}

/// Whether a digit is free for an unsolved cell does not depend on a
/// different digit that was put there in passing.
pub proof fn lemma_taken_own(g: Grid, i: int, v: u8, d: u8)
    requires
        g.len() == 81,
        0 <= i <= 80,
        !is_solved(g[i]),
        d != v,
    ensures
        taken(g.update(i, set![v]), i, d) == taken(g, i, d),
{
    lemma_cell_in_unit(Orientation::Block, i);
    lemma_cell_in_unit(Orientation::Row, i);
    lemma_cell_in_unit(Orientation::Column, i);
    crate::board::lemma_unit_on_board(Orientation::Block, unit_of(Orientation::Block, i));
    crate::board::lemma_unit_on_board(Orientation::Row, unit_of(Orientation::Row, i));
    crate::board::lemma_unit_on_board(Orientation::Column, unit_of(Orientation::Column, i));
    lemma_solved_values_own(
        g,
        unit_cells(Orientation::Block, unit_of(Orientation::Block, i)),
        i,
        v,
        d,
    );
    lemma_solved_values_own(g, unit_cells(Orientation::Row, unit_of(Orientation::Row, i)), i, v, d);
    lemma_solved_values_own(
        g,
        unit_cells(Orientation::Column, unit_of(Orientation::Column, i)),
        i,
        v,
        d,
    );
}

/// Every start of a valid fill is a valid fill, and every digit of a valid
/// fill is one of `1` to `9`.
pub proof fn lemma_valid_prefix(g: Grid, blanks: Seq<u8>, fill: Seq<u8>, k: int)
    requires
        valid_fill(g, blanks, fill),
        0 <= k <= fill.len(),
    ensures
        valid_fill(g, blanks, fill.take(k)),
        forall|j: int| 0 <= j < fill.len() ==> 1 <= #[trigger] fill[j] <= 9,
    decreases fill.len(),
{
    if fill.len() > 0 {
        let front = fill.drop_last();
        if k < fill.len() {
            lemma_valid_prefix(g, blanks, front, k);
            assert(fill.take(k) =~= front.take(k));
        } else {
            lemma_valid_prefix(g, blanks, front, k - 1);
            assert(fill.take(k) =~= fill);
        }
        assert forall|j: int| 0 <= j < fill.len() implies 1 <= #[trigger] fill[j] <= 9 by {
            if j < front.len() {
                assert(front[j] == fill[j]);
            }
        }
    } else {
        assert(fill.take(k) =~= fill);
    }
}

/// No solution comes before the search position: none starts with less than
/// the digits placed, and one that starts with just them goes on with `next`
/// or more.
pub open spec fn none_before(g: Grid, prefix: Seq<u8>, next: int) -> bool {
    forall|sol: Seq<u8>| #[trigger]
        is_solution(g, sol) ==> !comes_before(sol.take(prefix.len() as int), prefix) && (sol.take(
            prefix.len() as int,
        ) == prefix ==> sol[prefix.len() as int] >= next)
}

/// A digit that is taken is passed over.
proof fn lemma_search_skip(g: Grid, prefix: Seq<u8>, next: int)
    requires
        prefix.len() < blanks_of(g).len(),
        0 <= next <= 255,
        none_before(g, prefix, next),
        taken(filled(g, blanks_of(g), prefix), blanks_of(g)[prefix.len() as int] as int, next as u8),
    ensures
        none_before(g, prefix, next + 1),
{
    let p = prefix.len() as int;
    assert forall|sol: Seq<u8>| #[trigger] is_solution(g, sol) implies !comes_before(
        sol.take(p),
        prefix,
    ) && (sol.take(p) == prefix ==> sol[p] >= next + 1) by {
        if sol.take(p) == prefix {
            lemma_valid_prefix(g, blanks_of(g), sol, p + 1);
            let start = sol.take(p + 1);
            assert(start.drop_last() =~= prefix);
            assert(start.last() == sol[p]);
        }
    }
}

/// A digit that is free is placed, and the search goes on behind it.
proof fn lemma_search_advance(g: Grid, prefix: Seq<u8>, digit: u8)
    requires
        prefix.len() + 1 < blanks_of(g).len(),
        none_before(g, prefix, digit as int),
    ensures
        none_before(g, prefix.push(digit), 1),
{
    let p = prefix.len() as int;
    let longer = prefix.push(digit);
    assert forall|sol: Seq<u8>| #[trigger] is_solution(g, sol) implies !comes_before(
        sol.take(p + 1),
        longer,
    ) && (sol.take(p + 1) == longer ==> sol[p + 1] >= 1) by {
        lemma_valid_prefix(g, blanks_of(g), sol, 0);
        lemma_no_solution_before(sol, prefix, digit);
    }
}

/// What is not before a position is not before the position behind it.
proof fn lemma_no_solution_before(sol: Seq<u8>, prefix: Seq<u8>, digit: u8)
    requires
        prefix.len() < sol.len(),
        !comes_before(sol.take(prefix.len() as int), prefix),
        sol.take(prefix.len() as int) == prefix ==> sol[prefix.len() as int] >= digit,
    ensures
        !comes_before(sol.take(prefix.len() as int + 1), prefix.push(digit)),
{
    let p = prefix.len() as int;
    let longer = prefix.push(digit);
    let start = sol.take(p + 1);
    if comes_before(start, longer) {
        let k = choose|k: int|
            0 <= k < start.len() && k < longer.len() && start.take(k) == longer.take(k) && start[k]
                < longer[k];
        assert(start.take(k) =~= sol.take(p).take(k));
        assert(longer.take(k) =~= prefix.take(k));
        if k < p {
            assert(sol.take(p)[k] == start[k]);
            assert(prefix[k] == longer[k]);
            assert(comes_before(sol.take(p), prefix));
        } else {
            assert(sol.take(p) =~= start.take(k));
            assert(prefix =~= longer.take(k));
        }
    }
}

/// Where every digit has been tried, the search goes back one blank and
/// on from the digit that was placed there.
proof fn lemma_search_back(g: Grid, prefix: Seq<u8>, next: int)
    requires
        0 < prefix.len() < blanks_of(g).len(),
        next >= 10,
        none_before(g, prefix, next),
    ensures
        none_before(g, prefix.drop_last(), prefix.last() + 1),
{
    let p = prefix.len() as int;
    let front = prefix.drop_last();
    assert forall|sol: Seq<u8>| #[trigger] is_solution(g, sol) implies !comes_before(
        sol.take(p - 1),
        front,
    ) && (sol.take(p - 1) == front ==> sol[p - 1] >= prefix.last() + 1) by {
        lemma_valid_prefix(g, blanks_of(g), sol, 0);
        let start = sol.take(p);
        if comes_before(sol.take(p - 1), front) {
            let k = choose|k: int|
                0 <= k < p - 1 && sol.take(p - 1).take(k) == front.take(k) && sol.take(p - 1)[k]
                    < front[k];
            assert(start.take(k) =~= sol.take(p - 1).take(k));
            assert(prefix.take(k) =~= front.take(k));
            assert(start[k] < prefix[k]);
            assert(comes_before(start, prefix));
        }
        if sol.take(p - 1) == front {
            assert(start.take(p - 1) =~= sol.take(p - 1));
            assert(prefix.take(p - 1) =~= front);
            if sol[p - 1] < prefix.last() {
                assert(start[p - 1] < prefix[p - 1]);
                assert(comes_before(start, prefix));
            } else if sol[p - 1] == prefix.last() {
                assert(start =~= prefix);
            }
        }
    }
}

/// A fill that reaches the last blank is the first solution.
proof fn lemma_search_found(g: Grid, prefix: Seq<u8>, digit: u8)
    requires
        prefix.len() + 1 == blanks_of(g).len(),
        none_before(g, prefix, digit as int),
        valid_fill(g, blanks_of(g), prefix.push(digit)),
    ensures
        is_first_solution(g, prefix.push(digit)),
        solvable(g),
        first_solution(g) == prefix.push(digit),
{
    let longer = prefix.push(digit);
    let p = prefix.len() as int;
    assert(is_solution(g, longer));
    assert forall|other: Seq<u8>| #[trigger] is_solution(g, other) implies !comes_before(
        other,
        longer,
    ) by {
        lemma_no_solution_before(other, prefix, digit);
        assert(other.take(p + 1) =~= other);
    }
    assert(is_first_solution(g, longer));
    assert(exists|fill: Seq<u8>| is_first_solution(g, fill));
    lemma_first_solution_unique(g, first_solution(g), longer);
}

/// Where every digit has been tried for the first blank, there is no
/// solution.
proof fn lemma_search_failed(g: Grid, next: int)
    requires
        blanks_of(g).len() > 0,
        next >= 10,
        none_before(g, Seq::empty(), next),
    ensures
        !solvable(g),
{
    if solvable(g) {
        let sol = choose|fill: Seq<u8>| is_solution(g, fill);
        lemma_valid_prefix(g, blanks_of(g), sol, 0);
        assert(sol.take(0) =~= Seq::<u8>::empty());
        assert(sol[0] >= next);
    }
}

/// A solution solves every cell.
pub proof fn lemma_solution_solves(g: Grid, fill: Seq<u8>)
    requires
        g.len() == 81,
        is_solution(g, fill),
    ensures
        forall|i: int| 0 <= i < 81 ==> is_solved(#[trigger] filled(g, blanks_of(g), fill)[i]),
{
    let blanks = blanks_of(g);
    lemma_blanks(g);
    lemma_filled(g, blanks, fill);
    assert(blanks.take(fill.len() as int) =~= blanks);
    assert forall|i: int| 0 <= i < 81 implies is_solved(#[trigger] filled(g, blanks, fill)[i]) by {
        if blanks.contains(i as u8) {
            let j = choose|j: int| 0 <= j < blanks.len() && blanks[j] == i as u8;
            assert(filled(g, blanks, fill)[blanks[j] as int] == set![fill[j]]);
            lemma_singleton_is_solved(fill[j]);
        }
    }
}

/// The largest free digit up to `n` is free, if there is one; and if there
/// is none, no digit up to `n` is free.
pub proof fn lemma_last_free(g: Grid, i: int, n: int)
    requires
        0 <= n <= 9,
    ensures
        0 <= last_free(g, i, n) <= n,
        last_free(g, i, n) > 0 ==> !taken(g, i, last_free(g, i, n) as u8),
        last_free(g, i, n) == 0 ==> forall|d: u8| 1 <= d <= n ==> taken(g, i, d),
    decreases n,
{
    if n > 0 {
        lemma_last_free(g, i, n - 1);
    }
}

/// Where the search gives up, it leaves a cell unsolved.
pub proof fn lemma_stuck_unsolved(g: Grid)
    requires
        g.len() == 81,
        !solvable(g),
    ensures
        exists|i: int| 0 <= i < 81 && !is_solved(#[trigger] stuck(g)[i]),
{
    let blanks = blanks_of(g);
    lemma_blanks(g);
    if blanks.len() == 0 {
        assert(is_solution(g, Seq::<u8>::empty()));
    } else if blanks.len() == 1 {
        let first = blanks[0] as int;
        lemma_last_free(g, first, 9);
        let digit = last_free(g, first, 9);
        if digit > 0 {
            let fill = seq![digit as u8];
            assert(fill.drop_last() =~= Seq::<u8>::empty());
            assert(valid_fill(g, blanks, fill.drop_last()));
            assert(filled(g, blanks, fill.drop_last()) == g);
            assert(valid_fill(g, blanks, fill));
            assert(is_solution(g, fill));
        }
        assert(!is_solved(stuck(g)[first]));
    } else {
        let second = blanks[1] as int;
        assert(blanks[0] < blanks[1]);
        assert(!is_solved(stuck(g)[second]));
    }
}

/// A valid fill of a grid whose solved cells are distinct in every unit
/// leaves a grid whose solved cells are distinct in every unit.
pub proof fn lemma_fill_keeps_distinct(g: Grid, fill: Seq<u8>)
    requires
        grid_wf(g),
        crate::rules::units_distinct(g),
        fill.len() <= blanks_of(g).len(),
        valid_fill(g, blanks_of(g), fill),
    ensures
        grid_wf(filled(g, blanks_of(g), fill)),
        crate::rules::units_distinct(filled(g, blanks_of(g), fill)),
    decreases fill.len(),
{
    if fill.len() > 0 {
        let blanks = blanks_of(g);
        let front = fill.drop_last();
        lemma_blanks(g);
        lemma_fill_keeps_distinct(g, front);
        let before = filled(g, blanks, front);
        let at = blanks[fill.len() - 1] as int;
        crate::rules::lemma_placing_keeps_distinct(before, at, fill.last());
        lemma_singleton_is_solved(fill.last());
        assert forall|i: int| 0 <= i < 81 implies (#[trigger] before.update(
            at,
            set![fill.last()],
        )[i]).finite() by {}
    }
}

/// Where the search stands while it runs: the board holds the digits
/// placed so far, and the digit last tried at the blank in hand, if one was
/// put back there by a step back.
pub open spec fn search_board(g: Grid, prefix: Seq<u8>, current: u8) -> Grid {
    let blanks = blanks_of(g);
    if current == 0 {
        filled(g, blanks, prefix)
    } else {
        filled(g, blanks, prefix).update(blanks[prefix.len() as int] as int, set![current])
    }
}

/// Solves a board by trying digits: the blanks are filled in index order,
/// each with the smallest digit that no solved cell in its row, column or
/// block has, going back a blank where no digit is left. The result is the
/// first solution in lexicographic order, if there is one. If there is none,
/// the board comes back with at most its first blank filled in. The search
/// keeps its own snapshots, one for each blank: the board that comes back
/// has no history.
pub fn brute_force(board: Board) -> (result: Board)
    requires
        board.wf(),
    ensures
        result.wf(),
        !result.tracking(),
        solvable(board@) ==> is_first_solution(board@, first_solution(board@)) && result@
            == filled(board@, blanks_of(board@), first_solution(board@)),
        !solvable(board@) ==> result@ == stuck(board@),
        blanks_of(board@).len() == 0 ==> result@ == board@,
        solvable(board@) <==> forall|i: int| 0 <= i < 81 ==> is_solved(#[trigger] result@[i]),
{
    let mut board = board;
    let ghost g = board@;
    board.history = None;
    let blanks = board.blanks();
    proof {
        board.lemma_view();
        lemma_blanks(g);
    }
    if blanks.len() == 0 {
        proof {
            let none = Seq::<u8>::empty();
            assert(is_solution(g, none));
            assert(is_first_solution(g, none));
            assert(exists|fill: Seq<u8>| is_first_solution(g, fill));
            lemma_first_solution_unique(g, first_solution(g), none);
            lemma_solution_solves(g, none);
        }
        return board;
    }
    let n = blanks.len();
    let mut blank_index: usize = 0;
    let mut addition: u8 = 1;
    let mut history: Vec<Board> = Vec::with_capacity(n);
    let mut board_index: u8 = blanks[0];
    let mut current_solution: u8 = board.get(board_index);
    let ghost mut prefix: Seq<u8> = Seq::empty();
    let mut running = true;
    proof {
        assert(none_before(g, prefix, 1)) by {
            assert forall|sol: Seq<u8>| #[trigger] is_solution(g, sol) implies !comes_before(
                sol.take(0),
                prefix,
            ) && (sol.take(0) == prefix ==> sol[0] >= 1) by {
                lemma_valid_prefix(g, blanks_of(g), sol, 0);
            }
        }
        lemma_progress_bound(prefix, 1, n as int);
    }
    while running
        invariant
            g.len() == 81,
            blanks@ == blanks_of(g),
            n == blanks@.len(),
            0 < n <= 81,
            on_board(blanks@),
            forall|j: int| 0 <= j < blanks@.len() ==> !is_solved(g[#[trigger] blanks@[j] as int]),
            forall|j: int, k: int| 0 <= j < k < blanks@.len() ==> blanks@[j] < blanks@[k],
            board.wf(),
            !board.tracking(),
            running ==> {
                &&& blank_index < n
                &&& prefix.len() == blank_index
                &&& board_index == blanks@[blank_index as int]
                &&& valid_fill(g, blanks@, prefix)
                &&& current_solution <= 9
                &&& 1 <= addition
                &&& current_solution + addition <= 10
                &&& board@ == search_board(g, prefix, current_solution)
                &&& none_before(g, prefix, current_solution + addition)
                &&& (blank_index == 0 ==> current_solution == last_free(
                    g,
                    blanks@[0] as int,
                    current_solution + addition - 1,
                ))
                &&& blank_index <= history@.len()
                &&& forall|j: int|
                    0 <= j < blank_index ==> (#[trigger] history@[j]).wf()
                        && !history@[j].tracking() && history@[j]@ == filled(
                        g,
                        blanks@,
                        prefix.take(j + 1),
                    )
                &&& 0 <= progress(prefix, current_solution + addition, n as int) < shifted(
                    1,
                    n as nat,
                )
            },
            !running ==> {
                &&& solvable(g) ==> is_first_solution(g, first_solution(g)) && board@ == filled(
                    g,
                    blanks_of(g),
                    first_solution(g),
                )
                &&& !solvable(g) ==> board@ == stuck(g)
            },
        decreases
                if running {
                    shifted(1, n as nat) - progress(
                        prefix,
                        current_solution + addition,
                        n as int,
                    )
                } else {
                    0
                },
    {
        let ghost before = board@;
        let ghost placed = filled(g, blanks@, prefix);
        proof {
            lemma_filled(g, blanks@, prefix);
            lemma_valid_prefix(g, blanks@, prefix, 0);
            assert(!blanks@.take(prefix.len() as int).contains(board_index)) by {
                if blanks@.take(prefix.len() as int).contains(board_index) {
                    let q = choose|q: int|
                        0 <= q < prefix.len() && blanks@.take(prefix.len() as int)[q]
                            == board_index;
                    assert(blanks@[q] < blanks@[blank_index as int]);
                }
            }
            assert(placed[board_index as int] == g[board_index as int]);
        }
        if current_solution + addition > 9 {
            if blank_index == 0 {
                proof {
                    assert(prefix =~= Seq::<u8>::empty());
                    lemma_search_failed(g, current_solution + addition);
                    assert(placed == g);
                }
                running = false;
            } else {
                proof {
                    lemma_search_back(g, prefix, current_solution + addition);
                    lemma_progress_back(prefix, current_solution + addition, n as int);
                    assert(before[blanks@[blank_index - 1] as int] == set![prefix.last()]) by {
                        assert(blanks@[blank_index - 1] < blanks@[blank_index as int]);
                        assert(placed[blanks@[blank_index - 1] as int] == set![prefix[blank_index
                            - 1]]);
                    }
                    lemma_singleton_is_solved(prefix.last());
                }
                blank_index -= 1;
                addition = 1;
                board_index = blanks[blank_index];
                current_solution = board.get(board_index);
                board = history[blank_index].clone();
                proof {
                    let shorter = prefix.drop_last();
                    assert(prefix.take(blank_index + 1) =~= prefix);
                    assert forall|j: int| 0 <= j < blank_index implies (#[trigger] history@[j]).wf()
                        && !history@[j].tracking() && history@[j]@ == filled(
                        g,
                        blanks@,
                        shorter.take(j + 1),
                    ) by {
                        assert(shorter.take(j + 1) =~= prefix.take(j + 1));
                    }
                    lemma_valid_prefix(g, blanks@, prefix, blank_index as int);
                    assert(prefix.take(blank_index as int) =~= shorter);
                    if blank_index == 0 {
                        assert(shorter =~= Seq::<u8>::empty());
                        assert(filled(g, blanks@, shorter) == g);
                        assert(!taken(g, blanks@[0] as int, prefix.last()));
                    }
                    assert forall|j: int| 0 <= j < shorter.len() implies #[trigger] shorter[j]
                        <= 10 by {
                        assert(shorter[j] == prefix[j]);
                    }
                    lemma_progress_bound(shorter, current_solution + 1, n as int);
                    prefix = shorter;
                }
            }
        } else {
            let digit = current_solution + addition;
            proof {
                if current_solution != 0 {
                    lemma_taken_own(placed, board_index as int, current_solution, digit);
                }
            }
            let valid = board.try_set(board_index, digit);
            if !valid {
                proof {
                    lemma_search_skip(g, prefix, digit as int);
                    lemma_progress_next(prefix, digit as int, n as int);
                    lemma_progress_bound(prefix, digit + 1, n as int);
                    if blank_index == 0 {
                        assert(prefix =~= Seq::<u8>::empty());
                        assert(placed == g);
                    }
                }
                addition += 1;
            } else {
                let ghost longer = prefix.push(digit);
                proof {
                    assert(longer.drop_last() =~= prefix);
                    assert(board@ =~= placed.update(board_index as int, set![digit]));
                    assert(board@ == filled(g, blanks@, longer));
                    assert(valid_fill(g, blanks@, longer));
                }
                if blank_index + 1 == n {
                    proof {
                        lemma_search_found(g, prefix, digit);
                    }
                    running = false;
                } else {
                    if blank_index < history.len() {
                        history[blank_index] = board.clone();
                    } else {
                        history.push(board.clone());
                    }
                    proof {
                        lemma_search_advance(g, prefix, digit);
                        lemma_progress_advance(prefix, digit, n as int);
                        assert forall|j: int| 0 <= j < blank_index + 1 implies (
                        #[trigger] history@[j]).wf() && !history@[j].tracking() && history@[j]@
                            == filled(g, blanks@, longer.take(j + 1)) by {
                            if j < blank_index {
                                assert(longer.take(j + 1) =~= prefix.take(j + 1));
                            } else {
                                assert(longer.take(j + 1) =~= longer);
                            }
                        }
                        lemma_filled(g, blanks@, longer);
                        let ahead = blanks@[blank_index + 1];
                        assert(!blanks@.take(longer.len() as int).contains(ahead)) by {
                            if blanks@.take(longer.len() as int).contains(ahead) {
                                let q = choose|q: int|
                                    0 <= q < longer.len() && blanks@.take(longer.len() as int)[q]
                                        == ahead;
                                assert(blanks@[q] < blanks@[blank_index + 1]);
                            }
                        }
                        assert(board@[ahead as int] == g[ahead as int]);
                        assert forall|j: int| 0 <= j < longer.len() implies #[trigger] longer[j]
                            <= 10 by {
                            if j < prefix.len() {
                                assert(longer[j] == prefix[j]);
                            }
                        }
                        lemma_progress_bound(longer, 1, n as int);
                        prefix = longer;
                    }
                    blank_index += 1;
                    addition = 1;
                    board_index = blanks[blank_index];
                    current_solution = board.get(board_index);
                }
            }
        }
    }
    proof {
        if solvable(g) {
            lemma_solution_solves(g, first_solution(g));
        } else {
            lemma_stuck_unsolved(g);
        }
    }
    board
}

} // verus!
