//! Hidden subsets: a few digits that only as many cells of a unit can take
//! leave no room for other digits in those cells.

use crate::board::{lemma_unit_on_board, Board};
use crate::cell::Cell;
use crate::combinatorics::{
    combinations, combinations_of, contains_value, lemma_combination_items, rows_of,
};
use crate::geometry::{unit_cells, Orientation};
use crate::grid::{
    lemma_unsolved_by_position, on_board, removed_by, removed_by_all, unsolved, without_all, Grid,
    Removal,
};
use crate::solvers::tools::{cover, cover_list};
use crate::solvers::{all_named, pass, removals_of, Rule, SolveProbabilities};
use crate::strategy::{removal_of, Strategy};
use crate::subset::Subset;
use std::collections::{HashMap, HashSet};
use vstd::prelude::*;

verus! {

broadcast use {vstd::std_specs::hash::group_hash_axioms, vstd::array::group_array_axioms};

/// Whether a cell of the unit outside the combination still holds the digit.
pub open spec fn held_outside(g: Grid, cells: Seq<u8>, combo: Seq<u8>, v: u8) -> bool {
    exists|p: int|
        0 <= p < cells.len() && !combo.contains(#[trigger] cells[p]) && g[cells[p] as int].contains(
            v,
        )
}

/// The digits that cells of the combination hold and no other cell of the
/// unit does.
pub open spec fn confined(g: Grid, cells: Seq<u8>, combo: Seq<u8>) -> Set<u8> {
    Set::new(|v: u8| cover(g, combo).contains(v) && !held_outside(g, cells, combo, v))
}

/// The cells of the combination that hold at least two of the digits.
pub open spec fn carriers(g: Grid, combo: Seq<u8>, values: Set<u8>) -> Seq<u8> {
    combo.filter(|c: u8| g[c as int].intersect(values).len() >= 2)
}

/// As many digits are confined to the combination as it has cells, and at
/// least two of its cells hold at least two of them.
pub open spec fn is_hidden(g: Grid, cells: Seq<u8>, combo: Seq<u8>) -> bool {
    &&& confined(g, cells, combo).len() == combo.len()
    &&& carriers(g, combo, confined(g, cells, combo)).len() >= 2
}

/// Takes from every cell of the combination all but the given digits.
pub open spec fn hidden_removal(g: Grid, combo: Seq<u8>, values: Set<u8>) -> Removal {
    Map::new(|c: u8| combo.contains(c), |c: u8| g[c as int].difference(values))
}

/// The removals for the hidden subsets of size `k` among the unsolved cells
/// of a unit, in the order of their combinations.
pub open spec fn hidden_sized(g: Grid, cells: Seq<u8>, k: nat) -> Seq<Removal> {
    combinations_of(unsolved(g, cells), k).filter(
        |combo: Seq<u8>| is_hidden(g, cells, combo),
    ).map_values(|combo: Seq<u8>| hidden_removal(g, combo, confined(g, cells, combo)))
}

/// The removals for the hidden subsets of a unit, from size four down to
/// size one.
pub open spec fn hidden(g: Grid, cells: Seq<u8>) -> Seq<Removal> {
    hidden_sized(g, cells, 4) + hidden_sized(g, cells, 3) + hidden_sized(g, cells, 2)
        + hidden_sized(g, cells, 1)
}

/// Whether a cell of the unit outside the combination still holds the digit.
fn is_held_outside(board: &Board, indices: &[u8; 9], combo: &Vec<u8>, v: u8) -> (held: bool)
    requires
        board.wf(),
        on_board(indices@),
    ensures
        held == held_outside(board@, indices@, combo@, v),
{
    let mut p: usize = 0;
    while p < 9
        invariant
            board.wf(),
            on_board(indices@),
            p <= 9,
            forall|q: int|
                0 <= q < p ==> !(!combo@.contains(#[trigger] indices@[q])
                    && board@[indices@[q] as int].contains(v)),
        decreases 9 - p,
    {
        let index = indices[p];
        if !contains_value(combo, index) && board.cells[index as usize].contains(&v) {
            assert(!combo@.contains(indices@[p as int]) && board@[indices@[p as int] as int].contains(
                v,
            ));
            return true;
        }
        p += 1;
    }
    false
}

/// The digits among `values` that no cell of the unit outside the
/// combination holds.
fn confined_list(board: &Board, indices: &[u8; 9], combo: &Vec<u8>, values: &Vec<u8>) -> (kept:
    Vec<u8>)
    requires
        board.wf(),
        on_board(indices@),
        values@.no_duplicates(),
        values@.to_set() == cover(board@, combo@),
    ensures
        kept@.no_duplicates(),
        kept@.to_set() == confined(board@, indices@, combo@),
        kept@.len() == confined(board@, indices@, combo@).len(),
{
    let mut kept: Vec<u8> = Vec::new();
    let mut k: usize = 0;
    while k < values.len()
        invariant
            board.wf(),
            on_board(indices@),
            k <= values@.len(),
            values@.no_duplicates(),
            kept@.no_duplicates(),
            forall|w: u8|
                #[trigger] kept@.contains(w) <==> (values@.take(k as int).contains(w)
                    && !held_outside(board@, indices@, combo@, w)),
        decreases values@.len() - k,
    {
        let v = values[k];
        let ghost listed = kept@;
        let held = is_held_outside(board, indices, combo, v);
        if !held {
            kept.push(v);
        }
        proof {
            let seen = values@.take(k as int);
            let next = values@.take(k + 1);
            assert(next =~= seen.push(v));
            assert(!seen.contains(v)) by {
                if seen.contains(v) {
                    let q = choose|q: int| 0 <= q < seen.len() && seen[q] == v;
                    assert(values@[q] == values@[k as int]);
                }
            }
            assert(!listed.contains(v));
            assert forall|w: u8|
                #[trigger] kept@.contains(w) <==> (next.contains(w) && !held_outside(
                    board@,
                    indices@,
                    combo@,
                    w,
                )) by {
                assert(listed.contains(w) <==> (seen.contains(w) && !held_outside(
                    board@,
                    indices@,
                    combo@,
                    w,
                )));
                if listed.contains(w) {
                    let q = choose|q: int| 0 <= q < listed.len() && listed[q] == w;
                    assert(kept@[q] == w);
                }
                if seen.contains(w) {
                    let q = choose|q: int| 0 <= q < seen.len() && seen[q] == w;
                    assert(next[q] == w);
                }
                assert(next[k as int] == v);
                if w == v {
                    if !held {
                        assert(kept@[listed.len() as int] == v);
                    }
                } else {
                    if kept@.contains(w) {
                        let q = choose|q: int| 0 <= q < kept@.len() && kept@[q] == w;
                        assert(listed[q] == w);
                    }
                    if next.contains(w) {
                        let q = choose|q: int| 0 <= q < next.len() && next[q] == w;
                        assert(seen[q] == w);
                    }
                }
            }
        }
        k += 1;
    }
    proof {
        assert(values@.take(k as int) =~= values@);
        assert forall|w: u8|
            kept@.to_set().contains(w) <==> confined(board@, indices@, combo@).contains(w) by {
            assert(kept@.contains(w) <==> (values@.contains(w) && !held_outside(
                board@,
                indices@,
                combo@,
                w,
            )));
            assert(values@.to_set().contains(w) == values@.contains(w));
        }
        assert(kept@.to_set() =~= confined(board@, indices@, combo@));
        kept@.unique_seq_to_set();
    }
    kept
}

/// How many of the given digits a cell still holds.
fn shared_count(cell: &Cell, values: &Vec<u8>) -> (count: usize)
    requires
        cell.wf(),
    ensures
        count == cell@.intersect(values@.to_set()).len(),
{
    let ghost mut both: Set<u8> = Set::empty();
    let mut count: usize = 0;
    let mut k: usize = 0;
    proof {
        crate::cell::lemma_increasing_set(cell.probabilities@);
        assert(cell.probabilities@.take(0).to_set() =~= Set::<u8>::empty());
        assert(both =~= cell.probabilities@.take(0).to_set().intersect(values@.to_set()));
    }
    while k < cell.probabilities.len()
        invariant
            cell.wf(),
            k <= cell.probabilities@.len(),
            cell.probabilities@.len() <= 256,
            both.finite(),
            both.len() == count,
            count <= k,
            both == cell.probabilities@.take(k as int).to_set().intersect(values@.to_set()),
        decreases cell.probabilities@.len() - k,
    {
        let v = cell.probabilities[k];
        let found = contains_value(values, v);
        proof {
            let seen = cell.probabilities@.take(k as int);
            assert(cell.probabilities@.take(k + 1) =~= seen.push(v));
            seen.lemma_push_to_set_commute(v);
            assert(!seen.contains(v)) by {
                if seen.contains(v) {
                    let q = choose|q: int| 0 <= q < seen.len() && seen[q] == v;
                    assert(cell.probabilities@[q] < cell.probabilities@[k as int]);
                }
            }
            if found {
                assert(seen.push(v).to_set().intersect(values@.to_set()) =~= both.insert(v));
                both = both.insert(v);
            } else {
                assert(seen.push(v).to_set().intersect(values@.to_set()) =~= both);
            }
        }
        if found {
            count += 1;
        }
        k += 1;
    }
    assert(cell.probabilities@.take(k as int) =~= cell.probabilities@);
    count
}

/// How many cells of the combination hold at least two of the digits.
fn count_carriers(board: &Board, combo: &Vec<u8>, values: &Vec<u8>) -> (count: usize)
    requires
        board.wf(),
        on_board(combo@),
    ensures
        count == carriers(board@, combo@, values@.to_set()).len(),
{
    let ghost keep = |c: u8| board@[c as int].intersect(values@.to_set()).len() >= 2;
    let mut count: usize = 0;
    let mut j: usize = 0;
    proof {
        assert(combo@.take(0).filter(keep) =~= Seq::empty()) by {
            reveal(Seq::filter);
        }
    }
    while j < combo.len()
        invariant
            board.wf(),
            on_board(combo@),
            j <= combo@.len(),
            keep == |c: u8| board@[c as int].intersect(values@.to_set()).len() >= 2,
            count == combo@.take(j as int).filter(keep).len(),
            count <= j,
        decreases combo@.len() - j,
    {
        let c = combo[j];
        proof {
            let seen = combo@.take(j as int);
            assert(combo@.take(j + 1) =~= seen.push(c));
            seen.lemma_filter_push(c, keep);
        }
        if shared_count(&board.cells[c as usize], values) >= 2 {
            count += 1;
        }
        j += 1;
    }
    assert(combo@.take(j as int) =~= combo@);
    count
}

/// The candidates of a cell that are not among the given digits.
fn outside(cell: &Cell, values: &Vec<u8>) -> (rest: HashSet<u8>)
    ensures
        rest@ == cell@.difference(values@.to_set()),
{
    let mut rest: HashSet<u8> = HashSet::new();
    let mut k: usize = 0;
    assert(cell.probabilities@.take(0).to_set() =~= Set::<u8>::empty());
    assert(rest@ =~= cell.probabilities@.take(0).to_set().difference(values@.to_set()));
    while k < cell.probabilities.len()
        invariant
            k <= cell.probabilities@.len(),
            rest@ == cell.probabilities@.take(k as int).to_set().difference(values@.to_set()),
        decreases cell.probabilities@.len() - k,
    {
        let v = cell.probabilities[k];
        if !contains_value(values, v) {
            rest.insert(v);
        }
        proof {
            let seen = cell.probabilities@.take(k as int);
            assert(cell.probabilities@.take(k + 1) =~= seen.push(v));
            seen.lemma_push_to_set_commute(v);
            assert(rest@ =~= seen.push(v).to_set().difference(values@.to_set()));
        }
        k += 1;
    }
    assert(cell.probabilities@.take(k as int) =~= cell.probabilities@);
    rest
}

/// The table that leaves every cell of the combination only the given
/// digits.
fn hidden_table(board: &Board, combo: &Vec<u8>, values: &Vec<u8>) -> (table: HashMap<
    u8,
    HashSet<u8>,
>)
    requires
        board.wf(),
        on_board(combo@),
    ensures
        removal_of(table@) == hidden_removal(board@, combo@, values@.to_set()),
{
    let mut table: HashMap<u8, HashSet<u8>> = HashMap::new();
    let ghost digits = values@.to_set();
    let mut j: usize = 0;
    assert(removal_of(table@) =~= hidden_removal(board@, combo@.take(0), digits));
    while j < combo.len()
        invariant
            board.wf(),
            on_board(combo@),
            j <= combo@.len(),
            digits == values@.to_set(),
            removal_of(table@) == hidden_removal(board@, combo@.take(j as int), digits),
        decreases combo@.len() - j,
    {
        let c = combo[j];
        let ghost before = table@;
        let cell = &board.cells[c as usize];
        table.insert(cell.index, outside(cell, values));
        proof {
            let seen = combo@.take(j as int);
            let next = combo@.take(j + 1);
            let old_removal = hidden_removal(board@, seen, digits);
            let new_removal = hidden_removal(board@, next, digits);
            assert(next =~= seen.push(c));
            assert forall|x: u8| new_removal.dom().contains(x) <==> (old_removal.dom().contains(x)
                || x == c) by {
                if seen.contains(x) {
                    let q = choose|q: int| 0 <= q < seen.len() && seen[q] == x;
                    assert(next[q] == x);
                }
                assert(next[j as int] == c);
                if next.contains(x) && x != c {
                    let q = choose|q: int| 0 <= q < next.len() && next[q] == x;
                    assert(seen[q] == x);
                }
            }
            assert forall|x: u8| removal_of(table@).dom().contains(x) <==> (removal_of(
                before,
            ).dom().contains(x) || x == c) by {}
            assert forall|x: u8| #[trigger]
                removal_of(table@).dom().contains(x) implies removal_of(table@)[x]
                == new_removal[x] by {
                assert(removal_of(table@)[x] == table@[x]@);
                if x == c {
                    assert(next[j as int] == c);
                    assert(next.contains(c));
                    assert(board@[c as int] == cell@);
                } else {
                    assert(removal_of(before).dom().contains(x));
                    assert(old_removal.dom().contains(x));
                    assert(seen.contains(x));
                    assert(next.contains(x));
                    assert(removal_of(before)[x] == old_removal[x]);
                }
                assert(new_removal[x] == board@[x as int].difference(digits));
            }
            assert(removal_of(table@) =~= new_removal);
        }
        j += 1;
    }
    assert(combo@.take(j as int) =~= combo@);
    table
}

/// The combination is a hidden subset of the unit, the cell is one of its
/// cells, and the digit is one that the cell holds and that is not confined
/// to the subset.
pub open spec fn hidden_takes(g: Grid, cells: Seq<u8>, combo: Seq<u8>, i: u8, v: u8) -> bool {
    &&& is_hidden(g, cells, combo)
    &&& combo.contains(i)
    &&& g[i as int].contains(v)
    &&& !confined(g, cells, combo).contains(v)
}

/// Some hidden subset of the unit has the cell and does not have the digit
/// among those confined to it.
pub open spec fn hidden_removes(g: Grid, cells: Seq<u8>, i: u8, v: u8) -> bool {
    exists|combo: Seq<u8>|
        1 <= combo.len() <= 4 && #[trigger] combinations_of(
            unsolved(g, cells),
            combo.len(),
        ).contains(combo) && hidden_takes(g, cells, combo, i, v)
}

/// What the rule takes for the subsets of one size.
proof fn lemma_hidden_sized_removes(g: Grid, cells: Seq<u8>, k: nat, i: u8, v: u8)
    ensures
        removed_by_all(hidden_sized(g, cells, k), i).contains(v) == (exists|combo: Seq<u8>|
            combo.len() == k && #[trigger] combinations_of(unsolved(g, cells), k).contains(combo)
                && hidden_takes(g, cells, combo, i, v)),
{
    let all = combinations_of(unsolved(g, cells), k);
    let keep = |combo: Seq<u8>| is_hidden(g, cells, combo);
    let removal = |combo: Seq<u8>| hidden_removal(g, combo, confined(g, cells, combo));
    crate::solvers::lemma_filter_map_removes(all, keep, removal, i, v);
    if removed_by_all(hidden_sized(g, cells, k), i).contains(v) {
        let j = choose|j: int|
            0 <= j < all.len() && keep(#[trigger] all[j]) && removed_by(removal(all[j]), i).contains(
                v,
            );
        lemma_combination_items(unsolved(g, cells), k, j);
        assert(all.contains(all[j]));
        assert(hidden_takes(g, cells, all[j], i, v));
    }
    if exists|combo: Seq<u8>|
        combo.len() == k && #[trigger] all.contains(combo) && hidden_takes(g, cells, combo, i, v) {
        let combo = choose|combo: Seq<u8>|
            combo.len() == k && #[trigger] all.contains(combo) && hidden_takes(
                g,
                cells,
                combo,
                i,
                v,
            );
        let j = choose|j: int| 0 <= j < all.len() && all[j] == combo;
        assert(keep(all[j]) && removed_by(removal(all[j]), i).contains(v));
    }
}

/// The rule takes a digit from a cell of a unit just when the cell belongs
/// to a hidden subset of the unit to which the digit is not confined.
pub proof fn lemma_hidden_removes(g: Grid, cells: Seq<u8>, i: u8, v: u8)
    ensures
        removed_by_all(hidden(g, cells), i).contains(v) == hidden_removes(g, cells, i, v),
{
    let open = unsolved(g, cells);
    lemma_hidden_sized_removes(g, cells, 4, i, v);
    lemma_hidden_sized_removes(g, cells, 3, i, v);
    lemma_hidden_sized_removes(g, cells, 2, i, v);
    lemma_hidden_sized_removes(g, cells, 1, i, v);
    let four = hidden_sized(g, cells, 4);
    let three = hidden_sized(g, cells, 3);
    let two = hidden_sized(g, cells, 2);
    let one = hidden_sized(g, cells, 1);
    crate::solvers::lemma_removed_by_concat(four, three, i, v);
    crate::solvers::lemma_removed_by_concat(four + three, two, i, v);
    crate::solvers::lemma_removed_by_concat(four + three + two, one, i, v);
    if hidden_removes(g, cells, i, v) {
        let combo = choose|combo: Seq<u8>|
            1 <= combo.len() <= 4 && #[trigger] combinations_of(open, combo.len()).contains(combo)
                && hidden_takes(g, cells, combo, i, v);
        if combo.len() == 4 {
            assert(combinations_of(open, 4).contains(combo));
        } else if combo.len() == 3 {
            assert(combinations_of(open, 3).contains(combo));
        } else if combo.len() == 2 {
            assert(combinations_of(open, 2).contains(combo));
        } else {
            assert(combinations_of(open, 1).contains(combo));
        }
    }
    if removed_by_all(hidden(g, cells), i).contains(v) {
        if removed_by_all(four, i).contains(v) {
            let combo = choose|combo: Seq<u8>|
                combo.len() == 4 && #[trigger] combinations_of(open, 4).contains(combo)
                    && hidden_takes(g, cells, combo, i, v);
            assert(combinations_of(open, combo.len()).contains(combo));
        } else if removed_by_all(three, i).contains(v) {
            let combo = choose|combo: Seq<u8>|
                combo.len() == 3 && #[trigger] combinations_of(open, 3).contains(combo)
                    && hidden_takes(g, cells, combo, i, v);
            assert(combinations_of(open, combo.len()).contains(combo));
        } else if removed_by_all(two, i).contains(v) {
            let combo = choose|combo: Seq<u8>|
                combo.len() == 2 && #[trigger] combinations_of(open, 2).contains(combo)
                    && hidden_takes(g, cells, combo, i, v);
            assert(combinations_of(open, combo.len()).contains(combo));
        } else {
            let combo = choose|combo: Seq<u8>|
                combo.len() == 1 && #[trigger] combinations_of(open, 1).contains(combo)
                    && hidden_takes(g, cells, combo, i, v);
            assert(combinations_of(open, combo.len()).contains(combo));
        }
    }
}

/// Soundness: a pass of the solver on a grid of digits that allows a solved
/// Sudoku leaves a grid that allows it.
pub proof fn lemma_hidden_sound(g: Grid, s: Seq<u8>)
    requires
        crate::grid::grid_wf(g),
        crate::rules::digits_only(g),
        crate::rules::is_complete(s),
        crate::rules::allows(g, s),
    ensures
        crate::rules::allows(without_all(g, pass::<Hidden>(g)), s),
{
    assert forall|k: int, u: int, i: int|
        0 <= k < Hidden::sweeps().len() && 0 <= u < 9 && 0 <= i < 81 implies !(
        #[trigger] removed_by_all(Hidden::deduce(g, Hidden::sweeps()[k], u), i as u8)).contains(
            s[i],
        ) by {
        let o = Hidden::sweeps()[k];
        let v = s[i];
        let cells = unit_cells(o, u);
        lemma_unit_on_board(o, u);
        lemma_hidden_removes(g, cells, i as u8, v);
        if hidden_removes(g, cells, i as u8, v) {
            let combo = choose|combo: Seq<u8>|
                1 <= combo.len() <= 4 && #[trigger] combinations_of(
                    unsolved(g, cells),
                    combo.len(),
                ).contains(combo) && hidden_takes(g, cells, combo, i as u8, v);
            crate::solvers::tools::lemma_unit_combination(g, o, u, combo.len(), combo);
            crate::solvers::tools::lemma_cover_finite(g, combo);
            crate::solvers::tools::lemma_solution_values_distinct(s, o, u, combo);
            let xs = crate::solvers::tools::solution_values(s, combo);
            let own = confined(g, cells, combo);
            assert(own.subset_of(cover(g, combo)));
            vstd::set_lib::lemma_len_subset(own, cover(g, combo));
            assert(own.subset_of(xs.to_set())) by {
                assert forall|d: u8| own.contains(d) implies xs.to_set().contains(d) by {
                    let j = choose|j: int|
                        0 <= j < combo.len() && g[#[trigger] combo[j] as int].contains(d);
                    assert(1 <= d <= 9);
                    let p = crate::rules::lemma_unit_has_digit(s, o, u, d);
                    let c = cells[p];
                    assert(g[c as int].contains(d));
                    if !combo.contains(c) {
                        assert(held_outside(g, cells, combo, d));
                    }
                    let q = choose|q: int| 0 <= q < combo.len() && combo[q] == c;
                    assert(xs[q] == d);
                }
            }
            crate::rules::lemma_pigeonhole(xs, own);
            let q = choose|q: int| 0 <= q < combo.len() && combo[q] == i as u8;
            assert(xs[q] == v);
            assert(xs.to_set().contains(v));
        }
    }
    crate::solvers::lemma_sound_pass::<Hidden>(g, s);
}

/// The solver for hidden pairs, triples and quadruples.
pub struct Hidden;

impl Hidden {
    /// The strategies for the hidden subsets of one size in one unit.
    fn of_size(board: &Board, subset: &Subset, missing: &Vec<u8>, k: usize) -> (strategies: Vec<
        Strategy,
    >)
        requires
            board.wf(),
            on_board(subset.indices@),
            on_board(missing@),
            missing@ == unsolved(board@, subset.indices@),
            k <= 9,
        ensures
            removals_of(strategies@) == hidden_sized(board@, subset.indices@, k as nat),
            all_named(strategies@, Self::label()),
    {
        let mut strategies: Vec<Strategy> = Vec::new();
        let combos = combinations(missing, k);
        let ghost cells = subset.indices@;
        let ghost all = combinations_of(missing@, k as nat);
        let ghost keep = |combo: Seq<u8>| is_hidden(board@, cells, combo);
        let ghost removal = |combo: Seq<u8>|
            hidden_removal(board@, combo, confined(board@, cells, combo));
        proof {
            assert(all.len() == combos@.len());
            assert(all.take(0).filter(keep) =~= Seq::empty()) by {
                reveal(Seq::filter);
            }
            assert(removals_of(strategies@) =~= all.take(0).filter(keep).map_values(removal));
        }
        let mut j: usize = 0;
        while j < combos.len()
            invariant
                board.wf(),
                on_board(missing@),
                on_board(subset.indices@),
                j <= combos@.len(),
                cells == subset.indices@,
                all == combinations_of(missing@, k as nat),
                rows_of(combos@) == all,
                keep == |combo: Seq<u8>| is_hidden(board@, cells, combo),
                removal == |combo: Seq<u8>|
                    hidden_removal(board@, combo, confined(board@, cells, combo)),
                removals_of(strategies@) == all.take(j as int).filter(keep).map_values(removal),
                all_named(strategies@, Self::label()),
            decreases combos@.len() - j,
        {
            let combination = &combos[j];
            proof {
                assert(combination@ == all[j as int]) by {
                    assert(rows_of(combos@)[j as int] == combos@[j as int]@);
                }
                lemma_combination_items(missing@, k as nat, j as int);
                assert forall|q: int| 0 <= q < combination@.len() implies combination@[q]
                    <= 80 by {
                    assert(all[j as int].contains(combination@[q]));
                    assert(missing@.contains(combination@[q]));
                    let r = choose|r: int|
                        0 <= r < missing@.len() && missing@[r] == combination@[q];
                }
                let seen = all.take(j as int);
                assert(all.take(j + 1) =~= seen.push(combination@));
                seen.lemma_filter_push(combination@, keep);
                seen.filter(keep).lemma_push_map_commute(removal, combination@);
            }
            let unique_numbers = cover_list(board, combination);
            let possibly_hidden = confined_list(
                board,
                &subset.indices,
                combination,
                &unique_numbers,
            );
            if possibly_hidden.len() == k && count_carriers(board, combination, &possibly_hidden)
                >= 2 {
                let table = hidden_table(board, combination, &possibly_hidden);
                let strategy = Strategy::new(Self::name(), table);
                proof {
                    strategies@.lemma_push_map_commute(|s: Strategy| s@, strategy);
                }
                strategies.push(strategy);
            }
            j += 1;
        }
        assert(all.take(j as int) =~= all);
        strategies
    }
}

impl Rule for Hidden {
    open spec fn label() -> Seq<char> {
        "Hidden"@
    }

    open spec fn sweeps() -> Seq<Orientation> {
        seq![Orientation::Row, Orientation::Column, Orientation::Block]
    }

    open spec fn deduce(g: Grid, o: Orientation, u: int) -> Seq<Removal> {
        hidden(g, unit_cells(o, u))
    }
}

impl SolveProbabilities for Hidden {
    fn name() -> (name: String) {
        String::from_str("Hidden")
    }

    fn orientations() -> (kinds: Vec<Orientation>) {
        let kinds = vec![Orientation::Row, Orientation::Column, Orientation::Block];
        assert(kinds@ =~= Self::sweeps());
        kinds
    }

    fn logic(board: &Board, orientation: &Orientation, index: u8) -> (strategies: Vec<Strategy>) {
        let subset = Self::create_subset(board, orientation, index);
        let missing = subset.indices_missing();
        proof {
            let cells = unit_cells(*orientation, index as int);
            lemma_unit_on_board(*orientation, index as int);
            lemma_unsolved_by_position(board@, cells);
            assert(missing@ =~= unsolved(board@, cells));
            assert forall|q: int| 0 <= q < missing@.len() implies missing@[q] <= 80 by {
                assert(missing@.contains(missing@[q]));
                cells.lemma_filter_contains_rev(
                    |c: u8| !crate::cell::is_solved(board@[c as int]),
                    missing@[q],
                );
                let r = choose|r: int| 0 <= r < cells.len() && cells[r] == missing@[q];
            }
        }
        let mut strategies = Self::of_size(board, &subset, &missing, 4);
        let mut triples = Self::of_size(board, &subset, &missing, 3);
        let mut pairs = Self::of_size(board, &subset, &missing, 2);
        let mut singles = Self::of_size(board, &subset, &missing, 1);
        let ghost fours = strategies@;
        let ghost threes = triples@;
        let ghost twos = pairs@;
        let ghost ones = singles@;
        strategies.append(&mut triples);
        strategies.append(&mut pairs);
        strategies.append(&mut singles);
        proof {
            assert(removals_of(fours + threes) =~= removals_of(fours) + removals_of(threes));
            assert(removals_of(fours + threes + twos) =~= removals_of(fours + threes)
                + removals_of(twos));
            assert(removals_of(fours + threes + twos + ones) =~= removals_of(
                fours + threes + twos,
            ) + removals_of(ones));
        }
        strategies
    }
}

} // verus!
