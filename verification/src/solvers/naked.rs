//! Naked subsets: a few cells of a unit that between them hold just as many
//! digits keep those digits to themselves.

use crate::board::{lemma_unit_on_board, Board};
use crate::combinatorics::{
    combinations, combinations_of, contains_value, lemma_combination_items, rows_of,
};
use crate::geometry::{unit_cells, Orientation};
use crate::grid::{
    lemma_unsolved_by_position, on_board, removed_by, removed_by_all, unsolved, without_all, Grid,
    Removal,
};
use crate::solvers::tools::{cover, cover_list, hash_set_of};
use crate::solvers::{all_named, pass, removals_of, Rule, SolveProbabilities};
use crate::strategy::{removal_of, Strategy};
use crate::subset::Subset;
use std::collections::{HashMap, HashSet};
use vstd::prelude::*;

verus! {

broadcast use {vstd::std_specs::hash::group_hash_axioms, vstd::array::group_array_axioms};

/// The given cells hold, between them, as many digits as there are cells.
pub open spec fn is_naked(g: Grid, combo: Seq<u8>) -> bool {
    cover(g, combo).len() == combo.len()
}

/// Takes the given digits from every cell of the unit outside the
/// combination.
pub open spec fn naked_removal(cells: Seq<u8>, combo: Seq<u8>, values: Set<u8>) -> Removal {
    Map::new(|c: u8| cells.contains(c) && !combo.contains(c), |c: u8| values)
}

/// The removals for the naked subsets of size `k` among the unsolved cells
/// of a unit, in the order of their combinations.
pub open spec fn naked_sized(g: Grid, cells: Seq<u8>, k: nat) -> Seq<Removal> {
    combinations_of(unsolved(g, cells), k).filter(|combo: Seq<u8>| is_naked(g, combo)).map_values(
        |combo: Seq<u8>| naked_removal(cells, combo, cover(g, combo)),
    )
}

/// The removals for the naked subsets of a unit: quadruples first, then
/// triples, then pairs.
pub open spec fn naked(g: Grid, cells: Seq<u8>) -> Seq<Removal> {
    naked_sized(g, cells, 4) + naked_sized(g, cells, 3) + naked_sized(g, cells, 2)
}

/// The table that gives every cell of the unit outside the combination the
/// given digits.
fn naked_table(indices: &[u8; 9], combo: &Vec<u8>, values: &Vec<u8>) -> (table: HashMap<
    u8,
    HashSet<u8>,
>)
    ensures
        removal_of(table@) == naked_removal(indices@, combo@, values@.to_set()),
{
    let mut table: HashMap<u8, HashSet<u8>> = HashMap::new();
    let ghost digits = values@.to_set();
    let mut p: usize = 0;
    assert(removal_of(table@) =~= naked_removal(indices@.take(0), combo@, digits));
    while p < 9
        invariant
            p <= 9,
            digits == values@.to_set(),
            removal_of(table@) == naked_removal(indices@.take(p as int), combo@, digits),
        decreases 9 - p,
    {
        let index = indices[p];
        let ghost before = table@;
        if !contains_value(combo, index) {
            table.insert(index, hash_set_of(values));
        }
        proof {
            let seen = indices@.take(p as int);
            let next = indices@.take(p + 1);
            let old_removal = naked_removal(seen, combo@, digits);
            let new_removal = naked_removal(next, combo@, digits);
            assert(next =~= seen.push(index));
            assert forall|c: u8| new_removal.dom().contains(c) <==> (old_removal.dom().contains(c)
                || (c == index && !combo@.contains(index))) by {
                if seen.contains(c) {
                    let q = choose|q: int| 0 <= q < seen.len() && seen[q] == c;
                    assert(next[q] == c);
                }
                assert(next[p as int] == index);
                if next.contains(c) && c != index {
                    let q = choose|q: int| 0 <= q < next.len() && next[q] == c;
                    assert(seen[q] == c);
                }
            }
            assert forall|c: u8| removal_of(table@).dom().contains(c) <==> (removal_of(
                before,
            ).dom().contains(c) || (c == index && !combo@.contains(index))) by {}
            assert forall|c: u8| #[trigger]
                removal_of(table@).dom().contains(c) implies removal_of(table@)[c]
                == new_removal[c] by {
                if c == index && !combo@.contains(index) {
                } else {
                    assert(removal_of(before).dom().contains(c));
                    assert(removal_of(before)[c] == old_removal[c]);
                }
            }
            assert(removal_of(table@) =~= new_removal);
        }
        p += 1;
    }
    proof {
        assert(indices@.take(9) =~= indices@);
    }
    table
}

/// The combination is a naked subset of the unit that leaves the cell out
/// and holds the digit.
pub open spec fn naked_takes(g: Grid, cells: Seq<u8>, combo: Seq<u8>, i: u8, v: u8) -> bool {
    &&& is_naked(g, combo)
    &&& cells.contains(i)
    &&& !combo.contains(i)
    &&& cover(g, combo).contains(v)
}

/// Some naked pair, triple or quadruple of the unit leaves the cell out and
/// holds the digit.
pub open spec fn naked_removes(g: Grid, cells: Seq<u8>, i: u8, v: u8) -> bool {
    exists|combo: Seq<u8>|
        2 <= combo.len() <= 4 && #[trigger] combinations_of(
            unsolved(g, cells),
            combo.len(),
        ).contains(combo) && naked_takes(g, cells, combo, i, v)
}

/// What the rule takes for the subsets of one size.
proof fn lemma_naked_sized_removes(g: Grid, cells: Seq<u8>, k: nat, i: u8, v: u8)
    ensures
        removed_by_all(naked_sized(g, cells, k), i).contains(v) == (exists|combo: Seq<u8>|
            combo.len() == k && #[trigger] combinations_of(unsolved(g, cells), k).contains(combo)
                && naked_takes(g, cells, combo, i, v)),
{
    let all = combinations_of(unsolved(g, cells), k);
    let keep = |combo: Seq<u8>| is_naked(g, combo);
    let removal = |combo: Seq<u8>| naked_removal(cells, combo, cover(g, combo));
    crate::solvers::lemma_filter_map_removes(all, keep, removal, i, v);
    if removed_by_all(naked_sized(g, cells, k), i).contains(v) {
        let j = choose|j: int|
            0 <= j < all.len() && keep(#[trigger] all[j]) && removed_by(removal(all[j]), i).contains(
                v,
            );
        lemma_combination_items(unsolved(g, cells), k, j);
        assert(all.contains(all[j]));
        assert(naked_takes(g, cells, all[j], i, v));
    }
    if exists|combo: Seq<u8>|
        combo.len() == k && #[trigger] all.contains(combo) && naked_takes(g, cells, combo, i, v) {
        let combo = choose|combo: Seq<u8>|
            combo.len() == k && #[trigger] all.contains(combo) && naked_takes(
                g,
                cells,
                combo,
                i,
                v,
            );
        let j = choose|j: int| 0 <= j < all.len() && all[j] == combo;
        assert(keep(all[j]) && removed_by(removal(all[j]), i).contains(v));
    }
}

/// The rule takes a digit from a cell of a unit just when a naked subset of
/// the unit leaves the cell out and holds the digit.
pub proof fn lemma_naked_removes(g: Grid, cells: Seq<u8>, i: u8, v: u8)
    ensures
        removed_by_all(naked(g, cells), i).contains(v) == naked_removes(g, cells, i, v),
{
    let open = unsolved(g, cells);
    lemma_naked_sized_removes(g, cells, 4, i, v);
    lemma_naked_sized_removes(g, cells, 3, i, v);
    lemma_naked_sized_removes(g, cells, 2, i, v);
    crate::solvers::lemma_removed_by_concat(
        naked_sized(g, cells, 4),
        naked_sized(g, cells, 3),
        i,
        v,
    );
    crate::solvers::lemma_removed_by_concat(
        naked_sized(g, cells, 4) + naked_sized(g, cells, 3),
        naked_sized(g, cells, 2),
        i,
        v,
    );
    if naked_removes(g, cells, i, v) {
        let combo = choose|combo: Seq<u8>|
            2 <= combo.len() <= 4 && #[trigger] combinations_of(open, combo.len()).contains(combo)
                && naked_takes(g, cells, combo, i, v);
        if combo.len() == 4 {
            assert(combinations_of(open, 4).contains(combo));
        } else if combo.len() == 3 {
            assert(combinations_of(open, 3).contains(combo));
        } else {
            assert(combinations_of(open, 2).contains(combo));
        }
    }
    if removed_by_all(naked(g, cells), i).contains(v) {
        if removed_by_all(naked_sized(g, cells, 4), i).contains(v) {
            let combo = choose|combo: Seq<u8>|
                combo.len() == 4 && #[trigger] combinations_of(open, 4).contains(combo)
                    && naked_takes(g, cells, combo, i, v);
            assert(combinations_of(open, combo.len()).contains(combo));
        } else if removed_by_all(naked_sized(g, cells, 3), i).contains(v) {
            let combo = choose|combo: Seq<u8>|
                combo.len() == 3 && #[trigger] combinations_of(open, 3).contains(combo)
                    && naked_takes(g, cells, combo, i, v);
            assert(combinations_of(open, combo.len()).contains(combo));
        } else {
            let combo = choose|combo: Seq<u8>|
                combo.len() == 2 && #[trigger] combinations_of(open, 2).contains(combo)
                    && naked_takes(g, cells, combo, i, v);
            assert(combinations_of(open, combo.len()).contains(combo));
        }
    }
}

/// Whether some row, column or block has a naked subset that leaves the
/// cell out and holds the digit.
pub open spec fn naked_anywhere(g: Grid, i: u8, v: u8) -> bool {
    exists|o: Orientation, u: int|
        0 <= u < 9 && naked_removes(g, #[trigger] unit_cells(o, u), i, v)
}

/// One pass of the solver takes a digit from a cell just when a naked subset
/// of some unit leaves the cell out and holds the digit.
pub proof fn lemma_naked_pass(g: Grid, i: u8, v: u8)
    requires
        g.len() == 81,
        i <= 80,
    ensures
        without_all(g, pass::<Naked>(g))[i as int].contains(v) == (g[i as int].contains(v)
            && !naked_anywhere(g, i, v)),
{
    crate::solvers::lemma_pass_removes::<Naked>(g, i, v);
    if crate::solvers::pass_removes::<Naked>(g, i, v) {
        let k = choose|k: int|
            0 <= k < Naked::sweeps().len() && crate::solvers::units_remove::<Naked>(
                g,
                #[trigger] Naked::sweeps()[k],
                9,
                i,
                v,
            );
        let o = Naked::sweeps()[k];
        let u = choose|u: int|
            0 <= u < 9 && removed_by_all(#[trigger] Naked::deduce(g, o, u), i).contains(v);
        lemma_naked_removes(g, unit_cells(o, u), i, v);
        assert(naked_removes(g, unit_cells(o, u), i, v));
    }
    if naked_anywhere(g, i, v) {
        let (o, u) = choose|o: Orientation, u: int|
            0 <= u < 9 && naked_removes(g, #[trigger] unit_cells(o, u), i, v);
        lemma_naked_removes(g, unit_cells(o, u), i, v);
        let k: int = match o {
            Orientation::Row => 0,
            Orientation::Column => 1,
            Orientation::Block => 2,
        };
        assert(Naked::sweeps()[k] == o);
        assert(removed_by_all(Naked::deduce(g, o, u), i).contains(v));
        assert(crate::solvers::units_remove::<Naked>(g, Naked::sweeps()[k], 9, i, v));
    }
}

/// Soundness of a naked subset, for the other cells: where two, three or
/// four unsolved cells of a unit hold as many digits between them, no other
/// cell of the unit holds one of those digits after one pass of the solver.
pub proof fn lemma_naked_clears_others(
    g: Grid,
    o: Orientation,
    u: int,
    combo: Seq<u8>,
    i: u8,
    v: u8,
)
    requires
        g.len() == 81,
        0 <= u < 9,
        2 <= combo.len() <= 4,
        crate::combinatorics::is_subsequence(combo, unsolved(g, unit_cells(o, u))),
        is_naked(g, combo),
        unit_cells(o, u).contains(i),
        !combo.contains(i),
        cover(g, combo).contains(v),
    ensures
        !without_all(g, pass::<Naked>(g))[i as int].contains(v),
{
    crate::combinatorics::lemma_combinations_are_subsequences(
        unsolved(g, unit_cells(o, u)),
        combo,
    );
    lemma_unit_on_board(o, u);
    let q = choose|q: int| 0 <= q < unit_cells(o, u).len() && unit_cells(o, u)[q] == i;
    assert(naked_takes(g, unit_cells(o, u), combo, i, v));
    assert(naked_removes(g, unit_cells(o, u), i, v));
    lemma_naked_pass(g, i, v);
}

/// Soundness of a naked subset, for its own cells: after one pass of the
/// solver, a cell of the subset holds what it held, as far as no other naked
/// subset of the board leaves that cell out and holds one of its digits.
pub proof fn lemma_naked_keeps_own(g: Grid, i: u8)
    requires
        g.len() == 81,
        i <= 80,
        forall|v: u8| g[i as int].contains(v) ==> !naked_anywhere(g, i, v),
    ensures
        without_all(g, pass::<Naked>(g))[i as int] == g[i as int],
{
    assert forall|v: u8|
        without_all(g, pass::<Naked>(g))[i as int].contains(v) == g[i as int].contains(v) by {
        lemma_naked_pass(g, i, v);
    }
    assert(without_all(g, pass::<Naked>(g))[i as int] =~= g[i as int]);
}

/// Soundness: a pass of the solver on a grid that allows a solved Sudoku
/// leaves a grid that allows it.
pub proof fn lemma_naked_sound(g: Grid, s: Seq<u8>)
    requires
        crate::grid::grid_wf(g),
        crate::rules::is_complete(s),
        crate::rules::allows(g, s),
    ensures
        crate::rules::allows(without_all(g, pass::<Naked>(g)), s),
{
    assert forall|k: int, u: int, i: int|
        0 <= k < Naked::sweeps().len() && 0 <= u < 9 && 0 <= i < 81 implies !(
        #[trigger] removed_by_all(Naked::deduce(g, Naked::sweeps()[k], u), i as u8)).contains(
            s[i],
        ) by {
        let o = Naked::sweeps()[k];
        let v = s[i];
        let cells = unit_cells(o, u);
        lemma_naked_removes(g, cells, i as u8, v);
        if naked_removes(g, cells, i as u8, v) {
            let combo = choose|combo: Seq<u8>|
                2 <= combo.len() <= 4 && #[trigger] combinations_of(
                    unsolved(g, cells),
                    combo.len(),
                ).contains(combo) && naked_takes(g, cells, combo, i as u8, v);
            crate::solvers::tools::lemma_unit_combination(g, o, u, combo.len(), combo);
            crate::solvers::tools::lemma_cover_finite(g, combo);
            crate::solvers::tools::lemma_solution_values_distinct(s, o, u, combo);
            let xs = crate::solvers::tools::solution_values(s, combo);
            assert(xs.to_set().subset_of(cover(g, combo))) by {
                assert forall|w: u8| xs.to_set().contains(w) implies cover(g, combo).contains(
                    w,
                ) by {
                    let j = choose|j: int| 0 <= j < xs.len() && xs[j] == w;
                    assert(g[combo[j] as int].contains(s[combo[j] as int]));
                }
            }
            crate::rules::lemma_pigeonhole(xs, cover(g, combo));
            assert(xs.to_set().contains(v));
            let j = choose|j: int| 0 <= j < xs.len() && xs[j] == v;
            assert(combo.contains(combo[j]));
            crate::rules::lemma_cells_of_unit_peers(o, u, combo[j], i as u8);
        }
    }
    crate::solvers::lemma_sound_pass::<Naked>(g, s);
}

/// The solver for naked pairs, triples and quadruples.
pub struct Naked;

impl Naked {
    /// The strategies for the naked subsets of one size in one unit.
    fn of_size(board: &Board, subset: &Subset, missing: &Vec<u8>, k: usize) -> (strategies: Vec<
        Strategy,
    >)
        requires
            board.wf(),
            on_board(missing@),
            missing@ == unsolved(board@, subset.indices@),
            k <= 9,
        ensures
            removals_of(strategies@) == naked_sized(board@, subset.indices@, k as nat),
            all_named(strategies@, Self::label()),
    {
        let mut strategies: Vec<Strategy> = Vec::new();
        let combos = combinations(missing, k);
        let ghost cells = subset.indices@;
        let ghost all = combinations_of(missing@, k as nat);
        let ghost keep = |combo: Seq<u8>| is_naked(board@, combo);
        let ghost removal = |combo: Seq<u8>| naked_removal(cells, combo, cover(board@, combo));
        proof {
            assert(all.len() == combos@.len());
            assert(all.take(0).filter(keep) =~= Seq::empty()) by {
                reveal(Seq::filter);
            }
            assert(removals_of(strategies@) =~= all.take(0).filter(keep).map_values(removal));
        }
        let mut j: usize = 0;
        while j < combos.len()
            invariant
                board.wf(),
                on_board(missing@),
                j <= combos@.len(),
                cells == subset.indices@,
                all == combinations_of(missing@, k as nat),
                rows_of(combos@) == all,
                keep == |combo: Seq<u8>| is_naked(board@, combo),
                removal == |combo: Seq<u8>| naked_removal(cells, combo, cover(board@, combo)),
                removals_of(strategies@) == all.take(j as int).filter(keep).map_values(removal),
                all_named(strategies@, Self::label()),
            decreases combos@.len() - j,
        {
            let combination = &combos[j];
            proof {
                assert(combination@ == all[j as int]) by {
                    assert(rows_of(combos@)[j as int] == combos@[j as int]@);
                }
                lemma_combination_items(missing@, k as nat, j as int);
                assert forall|q: int| 0 <= q < combination@.len() implies combination@[q]
                    <= 80 by {
                    assert(all[j as int].contains(combination@[q]));
                    assert(missing@.contains(combination@[q]));
                    let r = choose|r: int|
                        0 <= r < missing@.len() && missing@[r] == combination@[q];
                }
                let seen = all.take(j as int);
                assert(all.take(j + 1) =~= seen.push(combination@));
                seen.lemma_filter_push(combination@, keep);
                seen.filter(keep).lemma_push_map_commute(removal, combination@);
            }
            let unique_numbers = cover_list(board, combination);
            if unique_numbers.len() == k {
                let table = naked_table(&subset.indices, combination, &unique_numbers);
                let strategy = Strategy::new(Self::name(), table);
                proof {
                    strategies@.lemma_push_map_commute(|s: Strategy| s@, strategy);
                }
                strategies.push(strategy);
            }
            j += 1;
        }
        assert(all.take(j as int) =~= all);
        strategies
    }
}

impl Rule for Naked {
    open spec fn label() -> Seq<char> {
        "Naked"@
    }

    open spec fn sweeps() -> Seq<Orientation> {
        seq![Orientation::Row, Orientation::Column, Orientation::Block]
    }

    open spec fn deduce(g: Grid, o: Orientation, u: int) -> Seq<Removal> {
        naked(g, unit_cells(o, u))
    }
}

impl SolveProbabilities for Naked {
    fn name() -> (name: String) {
        String::from_str("Naked")
    }

    fn orientations() -> (kinds: Vec<Orientation>) {
        let kinds = vec![Orientation::Row, Orientation::Column, Orientation::Block];
        assert(kinds@ =~= Self::sweeps());
        kinds
    }

    fn logic(board: &Board, orientation: &Orientation, index: u8) -> (strategies: Vec<Strategy>) {
        let subset = Self::create_subset(board, orientation, index);
        let missing = subset.indices_missing();
        proof {
            let cells = unit_cells(*orientation, index as int);
            lemma_unit_on_board(*orientation, index as int);
            lemma_unsolved_by_position(board@, cells);
            assert(missing@ =~= unsolved(board@, cells));
            assert forall|q: int| 0 <= q < missing@.len() implies missing@[q] <= 80 by {
                assert(missing@.contains(missing@[q]));
                cells.lemma_filter_contains_rev(
                    |c: u8| !crate::cell::is_solved(board@[c as int]),
                    missing@[q],
                );
                let r = choose|r: int| 0 <= r < cells.len() && cells[r] == missing@[q];
            }
        }
        let mut strategies = Self::of_size(board, &subset, &missing, 4);
        let mut triples = Self::of_size(board, &subset, &missing, 3);
        let mut pairs = Self::of_size(board, &subset, &missing, 2);
        let ghost fours = strategies@;
        let ghost threes = triples@;
        let ghost twos = pairs@;
        strategies.append(&mut triples);
        strategies.append(&mut pairs);
        proof {
            assert(removals_of(fours + threes) =~= removals_of(fours) + removals_of(threes));
            assert(removals_of(fours + threes + twos) =~= removals_of(fours + threes)
                + removals_of(twos));
        }
        strategies
    }
}

} // verus!
