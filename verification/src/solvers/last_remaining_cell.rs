//! A solved cell's digit is possible nowhere else in its units.

use crate::board::{lemma_unit_on_board, Board};
use crate::cell::{is_solved, Cell};
use crate::geometry::{unit_cells, Orientation};
use crate::grid::{
    removed_by, removed_by_all, solved_values, unit_view, unsolved, without_all, Grid, Removal,
};
use crate::solvers::{
    all_named, lemma_pass_removes, pass, pass_removes, removals_of, units_remove, Rule,
    SolveProbabilities,
};
use crate::strategy::{removal_of, Strategy};
use std::collections::{HashMap, HashSet};
use vstd::prelude::*;

verus! {

broadcast use {vstd::std_specs::hash::group_hash_axioms, vstd::array::group_array_axioms};

/// For each unsolved cell among `cells`, in order: the solved digits of the
/// unit that the cell still holds. Nothing where the unit has no solved cell.
pub open spec fn last_remaining(g: Grid, cells: Seq<u8>) -> Seq<Removal> {
    let values = solved_values(g, cells);
    if values.is_empty() {
        Seq::empty()
    } else {
        unsolved(g, cells).map_values(|c: u8| map![c => values.intersect(g[c as int])])
    }
}

/// The digits of `values` that a cell still holds.
pub(crate) fn common(values: &HashSet<u8>, cell: &Cell) -> (both: HashSet<u8>)
    ensures
        both@ == values@.intersect(cell@),
        both@.finite(),
{
    let mut both: HashSet<u8> = HashSet::new();
    let mut k: usize = 0;
    while k < cell.probabilities.len()
        invariant
            k <= cell.probabilities@.len(),
            both@.finite(),
            both@ == values@.intersect(cell.probabilities@.take(k as int).to_set()),
        decreases cell.probabilities@.len() - k,
    {
        let v = cell.probabilities[k];
        if values.contains(&v) {
            both.insert(v);
        }
        proof {
            let seen = cell.probabilities@.take(k as int);
            assert(cell.probabilities@.take(k + 1) =~= seen.push(v));
            seen.lemma_push_to_set_commute(v);
            assert(both@ =~= values@.intersect(seen.push(v).to_set()));
        }
        k += 1;
    }
    assert(cell.probabilities@.take(k as int) =~= cell.probabilities@);
    both
}

/// The strategy that takes the given digits from one cell.
pub(crate) fn single_removal(name: String, index: u8, digits: HashSet<u8>) -> (strategy: Strategy)
    ensures
        strategy.label() == name@,
        strategy@ == map![index => digits@],
{
    let mut table: HashMap<u8, HashSet<u8>> = HashMap::new();
    table.insert(index, digits);
    let strategy = Strategy::new(name, table);
    assert(strategy@ =~= map![index => digits@]);
    strategy
}

/// The rule takes a digit from a cell of a unit just when the cell is
/// unsolved and holds the digit, and a solved cell of the unit has it.
pub proof fn lemma_last_remaining_removes(g: Grid, cells: Seq<u8>, i: u8, v: u8)
    ensures
        removed_by_all(last_remaining(g, cells), i).contains(v) == (cells.contains(i)
            && !is_solved(g[i as int]) && g[i as int].contains(v) && solved_values(
            g,
            cells,
        ).contains(v)),
{
    let values = solved_values(g, cells);
    let keep = |c: u8| !is_solved(g[c as int]);
    let removal = |c: u8| map![c => values.intersect(g[c as int])];
    let open = unsolved(g, cells);
    let batch = last_remaining(g, cells);
    if removed_by_all(batch, i).contains(v) {
        let j = choose|j: int| 0 <= j < batch.len() && removed_by(#[trigger] batch[j], i).contains(v);
        assert(!values.is_empty());
        assert(batch[j] == removal(open[j]));
        assert(open[j] == i);
        cells.lemma_filter_pred(keep, j);
        assert(open.contains(open[j]));
        cells.lemma_filter_contains_rev(keep, i);
    }
    if cells.contains(i) && !is_solved(g[i as int]) && g[i as int].contains(v) && values.contains(
        v,
    ) {
        let q = choose|q: int| 0 <= q < cells.len() && cells[q] == i;
        cells.lemma_filter_contains(keep, q);
        let j = choose|j: int| 0 <= j < open.len() && open[j] == i;
        assert(batch[j] == removal(i));
        assert(removed_by(batch[j], i).contains(v));
    }
}

/// Running the solver a second time changes nothing, if the first run has
/// solved no cell: one pass takes all that the rule can take while the
/// solved cells stay the same.
pub proof fn lemma_last_remaining_idempotent(g: Grid)
    requires
        g.len() == 81,
        forall|i: int|
            0 <= i < 81 ==> is_solved(
                #[trigger] without_all(g, pass::<LastRemainingCell>(g))[i],
            ) == is_solved(g[i]),
    ensures
        without_all(
            without_all(g, pass::<LastRemainingCell>(g)),
            pass::<LastRemainingCell>(without_all(g, pass::<LastRemainingCell>(g))),
        ) == without_all(g, pass::<LastRemainingCell>(g)),
{
    let once = without_all(g, pass::<LastRemainingCell>(g));
    let twice = without_all(once, pass::<LastRemainingCell>(once));
    assert forall|i: int| 0 <= i < 81 implies twice[i] == once[i] by {
        let c = i as u8;
        assert forall|v: u8| once[i].contains(v) implies !removed_by_all(
            pass::<LastRemainingCell>(once),
            c,
        ).contains(v) by {
            lemma_pass_removes::<LastRemainingCell>(once, c, v);
            lemma_pass_removes::<LastRemainingCell>(g, c, v);
            if pass_removes::<LastRemainingCell>(once, c, v) {
                let k = choose|k: int|
                    0 <= k < LastRemainingCell::sweeps().len() && units_remove::<
                        LastRemainingCell,
                    >(once, #[trigger] LastRemainingCell::sweeps()[k], 9, c, v);
                let o = LastRemainingCell::sweeps()[k];
                let u = choose|u: int|
                    0 <= u < 9 && removed_by_all(
                        #[trigger] LastRemainingCell::deduce(once, o, u),
                        c,
                    ).contains(v);
                let cells = unit_cells(o, u);
                lemma_unit_on_board(o, u);
                lemma_last_remaining_removes(once, cells, c, v);
                lemma_last_remaining_removes(g, cells, c, v);
                let p = choose|p: int|
                    0 <= p < unit_view(once, cells).len() && is_solved(
                        #[trigger] unit_view(once, cells)[p],
                    ) && unit_view(once, cells)[p].contains(v);
                assert(is_solved(once[cells[p] as int]));
                assert(is_solved(unit_view(g, cells)[p]) && unit_view(g, cells)[p].contains(v));
                assert(removed_by_all(LastRemainingCell::deduce(g, o, u), c).contains(v));
                assert(units_remove::<LastRemainingCell>(g, o, 9, c, v));
                assert(pass_removes::<LastRemainingCell>(g, c, v));
                assert(!once[i].contains(v));
            }
        }
        assert(twice[i] =~= once[i]);
    }
    assert(twice =~= once);
}

/// Soundness: a pass of the solver on a grid that allows a solved Sudoku
/// leaves a grid that allows it.
pub proof fn lemma_last_remaining_sound(g: Grid, s: Seq<u8>)
    requires
        crate::grid::grid_wf(g),
        crate::rules::is_complete(s),
        crate::rules::allows(g, s),
    ensures
        crate::rules::allows(without_all(g, pass::<LastRemainingCell>(g)), s),
{
    assert forall|k: int, u: int, i: int|
        0 <= k < LastRemainingCell::sweeps().len() && 0 <= u < 9 && 0 <= i < 81 implies !(
        #[trigger] removed_by_all(
            LastRemainingCell::deduce(g, LastRemainingCell::sweeps()[k], u),
            i as u8,
        )).contains(s[i]) by {
        let o = LastRemainingCell::sweeps()[k];
        let cells = unit_cells(o, u);
        lemma_unit_on_board(o, u);
        lemma_last_remaining_removes(g, cells, i as u8, s[i]);
        if removed_by_all(last_remaining(g, cells), i as u8).contains(s[i]) {
            let p = choose|p: int|
                0 <= p < unit_view(g, cells).len() && is_solved(#[trigger] unit_view(g, cells)[p])
                    && unit_view(g, cells)[p].contains(s[i]);
            let c = cells[p];
            crate::rules::lemma_allowed_value(g, s, c as int);
            assert(cells.contains(c));
            crate::rules::lemma_cells_of_unit_peers(o, u, c, i as u8);
        }
    }
    crate::solvers::lemma_sound_pass::<LastRemainingCell>(g, s);
}

/// The solver that takes the digits of a unit's solved cells from the
/// unsolved cells of that unit.
pub struct LastRemainingCell;

impl Rule for LastRemainingCell {
    open spec fn label() -> Seq<char> {
        "LastRemainingCell"@
    }

    open spec fn sweeps() -> Seq<Orientation> {
        seq![Orientation::Row, Orientation::Column, Orientation::Block]
    }

    open spec fn deduce(g: Grid, o: Orientation, u: int) -> Seq<Removal> {
        last_remaining(g, unit_cells(o, u))
    }
}

impl SolveProbabilities for LastRemainingCell {
    fn name() -> (name: String) {
        String::from_str("LastRemainingCell")
    }

    fn orientations() -> (kinds: Vec<Orientation>) {
        let kinds = vec![Orientation::Row, Orientation::Column, Orientation::Block];
        assert(kinds@ =~= Self::sweeps());
        kinds
    }

    fn logic(board: &Board, orientation: &Orientation, index: u8) -> (strategies: Vec<Strategy>) {
        let mut strategies: Vec<Strategy> = Vec::new();
        let subset = Self::create_subset(board, orientation, index);
        let values_solved = subset.values_solved();
        let ghost cells = unit_cells(*orientation, index as int);
        let ghost values = solved_values(board@, cells);
        let ghost keep = |c: u8| !is_solved(board@[c as int]);
        let ghost removal = |c: u8| map![c => values.intersect(board@[c as int])];
        proof {
            lemma_unit_on_board(*orientation, index as int);
            board.lemma_view();
        }
        if values_solved.is_empty() {
            assert(removals_of(strategies@) =~= Seq::empty());
            return strategies;
        }
        proof {
            assert(cells.take(0).filter(keep) =~= Seq::empty()) by {
                reveal(Seq::filter);
            }
            assert(removals_of(strategies@) =~= cells.take(0).filter(keep).map_values(removal));
        }
        let mut p: usize = 0;
        while p < 9
            invariant
                board.wf(),
                p <= 9,
                cells == unit_cells(*orientation, index as int),
                cells.len() == 9,
                crate::grid::on_board(cells),
                subset.indices@ == cells,
                values_solved@ == values,
                keep == |c: u8| !is_solved(board@[c as int]),
                removal == |c: u8| map![c => values.intersect(board@[c as int])],
                removals_of(strategies@) == cells.take(p as int).filter(keep).map_values(removal),
                all_named(strategies@, Self::label()),
                forall|i: int|
                    0 <= i < 81 ==> is_solved(#[trigger] board@[i]) == (
                    board.cells@[i].probabilities@.len() == 1),
            decreases 9 - p,
        {
            let i = subset.indices[p];
            proof {
                let seen = cells.take(p as int);
                assert(cells.take(p + 1) =~= seen.push(i));
                seen.lemma_filter_push(i, keep);
                seen.filter(keep).lemma_push_map_commute(removal, i);
            }
            if !board.cells[i as usize].solved() {
                let probabilities_to_delete = common(&values_solved, &board.cells[i as usize]);
                let strategy = single_removal(Self::name(), i, probabilities_to_delete);
                proof {
                    strategies@.lemma_push_map_commute(|s: Strategy| s@, strategy);
                }
                strategies.push(strategy);
            }
            p += 1;
        }
        assert(cells.take(9) =~= cells);
        strategies
    }
}

} // verus!
