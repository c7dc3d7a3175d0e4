//! What several solvers share: the digits that a group of cells holds, and
//! the tables that strategies are made of.

use crate::board::Board;
use crate::cell::is_solved;
use crate::combinatorics::contains_value;
use crate::geometry::{unit_of, Orientation};
use crate::grid::{on_board, Grid};
use crate::subset::Subset;
use std::collections::HashSet;
use vstd::prelude::*;

verus! {

broadcast use vstd::std_specs::hash::group_hash_axioms;

/// The digits that at least one of the given cells still holds.
pub open spec fn cover(g: Grid, cells: Seq<u8>) -> Set<u8> {
    Set::new(
        |v: u8| exists|j: int| 0 <= j < cells.len() && g[#[trigger] cells[j] as int].contains(v),
    )
}

/// The cells among `cells` that still hold the digit, in order; with
/// `open_only`, the unsolved ones of them.
pub open spec fn holding(g: Grid, cells: Seq<u8>, digit: u8, open_only: bool) -> Seq<u8> {
    cells.filter(
        |c: u8| g[c as int].contains(digit) && (open_only ==> !is_solved(g[c as int])),
    )
}

/// The unsolved cells among `cells` that still hold the digit, in order.
pub open spec fn holders(g: Grid, cells: Seq<u8>, digit: u8) -> Seq<u8> {
    holding(g, cells, digit, true)
}

/// The cells among `cells` that hold the digit, solved or not, in order.
pub open spec fn carriers(g: Grid, cells: Seq<u8>, digit: u8) -> Seq<u8> {
    holding(g, cells, digit, false)
}

/// What is listed as holding the digit is a cell of the list that holds it,
/// and an unsolved one where only those are listed; and every such cell is
/// listed.
pub proof fn lemma_holding(g: Grid, cells: Seq<u8>, digit: u8, open_only: bool)
    ensures
        forall|j: int|
            0 <= j < holding(g, cells, digit, open_only).len() ==> {
                let c = #[trigger] holding(g, cells, digit, open_only)[j];
                &&& cells.contains(c)
                &&& g[c as int].contains(digit)
                &&& open_only ==> !is_solved(g[c as int])
            },
        forall|q: int|
            0 <= q < cells.len() && g[#[trigger] cells[q] as int].contains(digit) && (open_only
                ==> !is_solved(g[cells[q] as int])) ==> holding(g, cells, digit, open_only).contains(
                cells[q],
            ),
{
    let keep = |c: u8| g[c as int].contains(digit) && (open_only ==> !is_solved(g[c as int]));
    let held = holding(g, cells, digit, open_only);
    assert forall|j: int| 0 <= j < held.len() implies {
        let c = #[trigger] held[j];
        &&& cells.contains(c)
        &&& g[c as int].contains(digit)
        &&& open_only ==> !is_solved(g[c as int])
    } by {
        cells.lemma_filter_pred(keep, j);
        assert(held.contains(held[j]));
        cells.lemma_filter_contains_rev(keep, held[j]);
    }
    assert forall|q: int|
        0 <= q < cells.len() && g[#[trigger] cells[q] as int].contains(digit) && (open_only
            ==> !is_solved(g[cells[q] as int])) implies held.contains(cells[q]) by {
        cells.lemma_filter_contains(keep, q);
    }
}

/// The digits that some cells of a well-formed grid hold are finitely many.
pub proof fn lemma_cover_finite(g: Grid, cells: Seq<u8>)
    requires
        crate::grid::grid_wf(g),
        on_board(cells),
    ensures
        cover(g, cells).finite(),
    decreases cells.len(),
{
    if cells.len() == 0 {
        assert(cover(g, cells) =~= Set::<u8>::empty());
    } else {
        let front = cells.drop_last();
        lemma_cover_finite(g, front);
        let last = g[cells.last() as int];
        assert(cover(g, cells) =~= cover(g, front).union(last)) by {
            assert forall|v: u8| cover(g, cells).contains(v) <==> (cover(g, front).contains(v)
                || last.contains(v)) by {
                if cover(g, front).contains(v) {
                    let j = choose|j: int|
                        0 <= j < front.len() && g[#[trigger] front[j] as int].contains(v);
                    assert(cells[j] == front[j]);
                }
                if last.contains(v) {
                    assert(g[cells[cells.len() - 1] as int].contains(v));
                }
                if cover(g, cells).contains(v) {
                    let j = choose|j: int|
                        0 <= j < cells.len() && g[#[trigger] cells[j] as int].contains(v);
                    if j < front.len() {
                        assert(front[j] == cells[j]);
                    }
                }
            }
        }
    }
}

/// The unsolved cells of a unit, and every combination of them: increasing
/// lists of cells of the unit, none of them solved.
pub proof fn lemma_unit_combination(g: Grid, o: Orientation, u: int, k: nat, combo: Seq<u8>)
    requires
        0 <= u < 9,
        crate::combinatorics::combinations_of(
            crate::grid::unsolved(g, crate::geometry::unit_cells(o, u)),
            k,
        ).contains(combo),
    ensures
        combo.len() == k,
        crate::cell::increasing(combo),
        combo.no_duplicates(),
        on_board(combo),
        forall|j: int|
            0 <= j < combo.len() ==> crate::geometry::unit_cells(o, u).contains(#[trigger] combo[j])
                && !is_solved(g[combo[j] as int]),
{
    let cells = crate::geometry::unit_cells(o, u);
    let keep = |c: u8| !is_solved(g[c as int]);
    let open = crate::grid::unsolved(g, cells);
    let all = crate::combinatorics::combinations_of(open, k);
    crate::board::lemma_unit_on_board(o, u);
    assert(crate::cell::increasing(cells)) by {
        assert forall|a: int, b: int| 0 <= a < b < cells.len() implies cells[a] < cells[b] by {
            crate::geometry::lemma_unit_increasing(o, u, a, b);
        }
    }
    crate::utils::lemma_filter_increasing(cells, keep);
    let j = choose|j: int| 0 <= j < all.len() && all[j] == combo;
    crate::combinatorics::lemma_combination_items(open, k, j);
    crate::combinatorics::lemma_combination_increasing(open, k, j);
    assert forall|q: int| 0 <= q < combo.len() implies cells.contains(#[trigger] combo[q])
        && !is_solved(g[combo[q] as int]) && combo[q] <= 80 by {
        assert(combo.contains(combo[q]));
        assert(open.contains(combo[q]));
        let r = choose|r: int| 0 <= r < open.len() && open[r] == combo[q];
        cells.lemma_filter_pred(keep, r);
        cells.lemma_filter_contains_rev(keep, combo[q]);
        let t = choose|t: int| 0 <= t < cells.len() && cells[t] == combo[q];
    }
}

/// The digits that a solved Sudoku has in the cells of a combination of
/// cells of one unit: one for each cell, no two alike.
pub open spec fn solution_values(s: Seq<u8>, combo: Seq<u8>) -> Seq<u8> {
    combo.map_values(|c: u8| s[c as int])
}

/// Different cells of one unit have different digits in a solved Sudoku.
pub proof fn lemma_solution_values_distinct(s: Seq<u8>, o: Orientation, u: int, combo: Seq<u8>)
    requires
        crate::rules::is_complete(s),
        0 <= u < 9,
        combo.no_duplicates(),
        forall|j: int|
            0 <= j < combo.len() ==> crate::geometry::unit_cells(o, u).contains(#[trigger] combo[j]),
    ensures
        solution_values(s, combo).no_duplicates(),
{
    let xs = solution_values(s, combo);
    assert forall|a: int, b: int| 0 <= a < xs.len() && 0 <= b < xs.len() && a != b implies xs[a]
        != xs[b] by {
        assert(crate::geometry::unit_cells(o, u).contains(combo[a]));
        assert(crate::geometry::unit_cells(o, u).contains(combo[b]));
        crate::rules::lemma_cells_of_unit_peers(o, u, combo[a], combo[b]);
    }
}

/// The digits `1` to `9`, in order.
pub open spec fn digits() -> Seq<u8> {
    Seq::new(9, |i: int| (i + 1) as u8)
}

/// The unit of the given kind that each of the cells lies in.
pub open spec fn units_of(kind: Orientation, cells: Seq<u8>) -> Seq<u8> {
    cells.map_values(|c: u8| unit_of(kind, c as int) as u8)
}

/// For each cell of the subset that still holds the digit, in position
/// order: the unit of the given kind that the cell lies in. With
/// `open_only`, solved cells are passed over.
pub(crate) fn units_holding(
    board: &Board,
    subset: &Subset,
    kind: &Orientation,
    digit: u8,
    open_only: bool,
) -> (units: Vec<u8>)
    requires
        board.wf(),
        on_board(subset.indices@),
        subset.mirrors(board, subset.indices@),
    ensures
        units@ == units_of(*kind, holding(board@, subset.indices@, digit, open_only)),
{
    broadcast use vstd::array::group_array_axioms;

    let ghost cells = subset.indices@;
    let ghost keep = |c: u8|
        board@[c as int].contains(digit) && (open_only ==> !is_solved(board@[c as int]));
    let ghost unit = |c: u8| unit_of(*kind, c as int) as u8;
    let mut units: Vec<u8> = Vec::new();
    let mut p: usize = 0;
    proof {
        subset.lemma_mirrors(board, cells);
        subset.lemma_view();
        assert(cells.take(0).filter(keep) =~= Seq::empty()) by {
            reveal(Seq::filter);
        }
        assert(units@ =~= cells.take(0).filter(keep).map_values(unit));
    }
    while p < 9
        invariant
            board.wf(),
            p <= 9,
            cells == subset.indices@,
            cells.len() == 9,
            on_board(cells),
            subset.wf(),
            subset@ == crate::grid::unit_view(board@, cells),
            keep == |c: u8|
                board@[c as int].contains(digit) && (open_only ==> !is_solved(board@[c as int])),
            unit == |c: u8| unit_of(*kind, c as int) as u8,
            units@ == cells.take(p as int).filter(keep).map_values(unit),
            forall|q: int|
                0 <= q < 9 ==> is_solved(#[trigger] subset@[q]) == (
                subset.cells@[q].probabilities@.len() == 1),
        decreases 9 - p,
    {
        let cell = &subset.cells[p];
        proof {
            let seen = cells.take(p as int);
            assert(cells.take(p + 1) =~= seen.push(cells[p as int]));
            seen.lemma_filter_push(cells[p as int], keep);
            seen.filter(keep).lemma_push_map_commute(unit, cells[p as int]);
            assert(subset@[p as int] == board@[cells[p as int] as int]);
            assert(cell.index == cells[p as int]);
            crate::geometry::lemma_cell_in_unit(*kind, cell.index as int);
        }
        if cell.contains(&digit) && (!open_only || !cell.solved()) {
            let unit_index = match kind {
                Orientation::Row => cell.row(),
                Orientation::Column => cell.column(),
                Orientation::Block => cell.block(),
            };
            units.push(unit_index);
        }
        p += 1;
    }
    assert(cells.take(9) =~= cells);
    units
}

/// A hash set with the values of a list.
pub(crate) fn hash_set_of(values: &Vec<u8>) -> (set: HashSet<u8>)
    ensures
        set@ == values@.to_set(),
        set@.finite(),
{
    let mut set: HashSet<u8> = HashSet::new();
    let mut k: usize = 0;
    while k < values.len()
        invariant
            k <= values@.len(),
            set@.finite(),
            set@ == values@.take(k as int).to_set(),
        decreases values@.len() - k,
    {
        set.insert(values[k]);
        proof {
            let seen = values@.take(k as int);
            assert(values@.take(k + 1) =~= seen.push(values@[k as int]));
            seen.lemma_push_to_set_commute(values@[k as int]);
        }
        k += 1;
    }
    assert(values@.take(k as int) =~= values@);
    set
}

/// A hash set with one digit.
pub(crate) fn hash_set_with(digit: u8) -> (set: HashSet<u8>)
    ensures
        set@ == set![digit],
{
    let mut set: HashSet<u8> = HashSet::new();
    set.insert(digit);
    assert(set@ =~= set![digit]);
    set
}

/// The digits that at least one of the given cells still holds, each once.
pub(crate) fn cover_list(board: &Board, cells: &Vec<u8>) -> (values: Vec<u8>)
    requires
        board.wf(),
        on_board(cells@),
    ensures
        values@.no_duplicates(),
        values@.to_set() == cover(board@, cells@),
        values@.len() == cover(board@, cells@).len(),
        cover(board@, cells@).finite(),
{
    let mut values: Vec<u8> = Vec::new();
    let mut j: usize = 0;
    while j < cells.len()
        invariant
            board.wf(),
            on_board(cells@),
            j <= cells@.len(),
            values@.no_duplicates(),
            forall|v: u8| values@.contains(v) <==> cover(board@, cells@.take(j as int)).contains(v),
        decreases cells@.len() - j,
    {
        let cell = &board.cells[cells[j] as usize];
        let ghost here = cell.probabilities@;
        let ghost before = cover(board@, cells@.take(j as int));
        let mut k: usize = 0;
        while k < cell.probabilities.len()
            invariant
                k <= here.len(),
                here == cell.probabilities@,
                values@.no_duplicates(),
                forall|v: u8|
                    values@.contains(v) <==> (before.contains(v) || here.take(k as int).contains(
                        v,
                    )),
            decreases here.len() - k,
        {
            let v = cell.probabilities[k];
            let ghost listed = values@;
            if !contains_value(&values, v) {
                values.push(v);
            }
            proof {
                let seen = here.take(k as int);
                let next = here.take(k + 1);
                assert(next =~= seen.push(v));
                assert forall|w: u8|
                    values@.contains(w) <==> (before.contains(w) || next.contains(w)) by {
                    assert(listed.contains(w) <==> (before.contains(w) || seen.contains(w)));
                    if listed.contains(w) {
                        let q = choose|q: int| 0 <= q < listed.len() && listed[q] == w;
                        assert(values@[q] == w);
                    }
                    if seen.contains(w) {
                        let q = choose|q: int| 0 <= q < seen.len() && seen[q] == w;
                        assert(next[q] == w);
                    }
                    assert(next[k as int] == v);
                    if w == v {
                        if !listed.contains(v) {
                            assert(values@[listed.len() as int] == v);
                        }
                    } else {
                        if values@.contains(w) {
                            let q = choose|q: int| 0 <= q < values@.len() && values@[q] == w;
                            assert(listed[q] == w);
                        }
                        if next.contains(w) {
                            let q = choose|q: int| 0 <= q < next.len() && next[q] == w;
                            assert(seen[q] == w);
                        }
                    }
                }
            }
            k += 1;
        }
        proof {
            assert(here.take(k as int) =~= here);
            let seen = cells@.take(j as int);
            let next = cells@.take(j + 1);
            assert(next =~= seen.push(cells@[j as int]));
            assert forall|v: u8| values@.contains(v) <==> cover(board@, next).contains(v) by {
                if before.contains(v) {
                    let q = choose|q: int|
                        0 <= q < seen.len() && board@[#[trigger] seen[q] as int].contains(v);
                    assert(next[q] == seen[q]);
                }
                if here.contains(v) {
                    assert(board@[next[j as int] as int].contains(v));
                }
                if cover(board@, next).contains(v) {
                    let q = choose|q: int|
                        0 <= q < next.len() && board@[#[trigger] next[q] as int].contains(v);
                    if q < j {
                        assert(seen[q] == next[q]);
                    }
                }
            }
        }
        j += 1;
    }
    proof {
        assert(cells@.take(j as int) =~= cells@);
        assert(values@.to_set() =~= cover(board@, cells@));
        values@.unique_seq_to_set();
    }
    values
}

} // verus!
