//! Pointing: where a block can take a digit in one line only, the rest of
//! that line cannot take it.

use crate::board::{lemma_unit_on_board, Board};
use crate::cell::is_solved;
use crate::combinatorics::{is_uniform, uniform};
use crate::geometry::{block_of, unit_cells, unit_of, Orientation};
use crate::grid::{removed_by, removed_by_all, solved_values, without_all, Grid, Removal};
use crate::solvers::tools::{digits, hash_set_with, holders, units_holding, units_of};
use crate::solvers::{all_named, pass, removals_of, Rule, SolveProbabilities};
use crate::strategy::{removal_of, Strategy};
use crate::subset::Subset;
use std::collections::{HashMap, HashSet};
use vstd::prelude::*;

verus! {

broadcast use {vstd::std_specs::hash::group_hash_axioms, vstd::array::group_array_axioms};

/// The lines of kind `o` in which the unsolved cells of block `u` that still
/// hold the digit lie, one for each such cell.
pub open spec fn pointing_lines(g: Grid, o: Orientation, u: int, digit: u8) -> Seq<u8> {
    units_of(o, holders(g, unit_cells(Orientation::Block, u), digit))
}

/// The digit is not solved in block `u`, and the cells of the block that
/// still hold it lie in one line of kind `o`.
pub open spec fn points(g: Grid, o: Orientation, u: int, digit: u8) -> bool {
    &&& !solved_values(g, unit_cells(Orientation::Block, u)).contains(digit)
    &&& uniform(pointing_lines(g, o, u, digit))
}

/// Takes the digit from every unsolved cell of the line outside the block.
pub open spec fn pointing_removal(g: Grid, line: Seq<u8>, block: int, digit: u8) -> Removal {
    Map::new(
        |c: u8| line.contains(c) && block_of(c as int) != block && !is_solved(g[c as int]),
        |c: u8| set![digit],
    )
}

/// The removals that block `u` points out along lines of kind `o`, digit by
/// digit.
pub open spec fn pointing(g: Grid, o: Orientation, u: int) -> Seq<Removal> {
    digits().filter(|d: u8| points(g, o, u, d)).map_values(
        |d: u8|
            pointing_removal(g, unit_cells(o, pointing_lines(g, o, u, d)[0] as int), u, d),
    )
}

/// The table that gives every unsolved cell of the line outside the block
/// the digit.
fn pointing_table(board: &Board, line: &Subset, block: u8, digit: u8) -> (table: HashMap<
    u8,
    HashSet<u8>,
>)
    requires
        board.wf(),
        on_board_line(line, board),
    ensures
        removal_of(table@) == pointing_removal(board@, line.indices@, block as int, digit),
{
    let mut table: HashMap<u8, HashSet<u8>> = HashMap::new();
    let ghost cells = line.indices@;
    let mut p: usize = 0;
    proof {
        line.lemma_mirrors(board, cells);
        line.lemma_view();
        assert(removal_of(table@) =~= pointing_removal(board@, cells.take(0), block as int, digit));
    }
    while p < 9
        invariant
            board.wf(),
            p <= 9,
            cells == line.indices@,
            cells.len() == 9,
            line.wf(),
            line@ == crate::grid::unit_view(board@, cells),
            removal_of(table@) == pointing_removal(
                board@,
                cells.take(p as int),
                block as int,
                digit,
            ),
            forall|q: int|
                0 <= q < 9 ==> is_solved(#[trigger] line@[q]) == (
                line.cells@[q].probabilities@.len() == 1),
        decreases 9 - p,
    {
        let cell = &line.cells[p];
        let ghost before = table@;
        let ghost c = cells[p as int];
        proof {
            assert(line@[p as int] == board@[c as int]);
            assert(cell.index == c);
        }
        let takes = cell.block() != block && !cell.solved();
        if takes {
            table.insert(cell.index, hash_set_with(digit));
        }
        proof {
            let seen = cells.take(p as int);
            let next = cells.take(p + 1);
            let old_removal = pointing_removal(board@, seen, block as int, digit);
            let new_removal = pointing_removal(board@, next, block as int, digit);
            assert(next =~= seen.push(c));
            assert forall|x: u8| new_removal.dom().contains(x) <==> (old_removal.dom().contains(x)
                || (x == c && takes)) by {
                if seen.contains(x) {
                    let q = choose|q: int| 0 <= q < seen.len() && seen[q] == x;
                    assert(next[q] == x);
                }
                assert(next[p as int] == c);
                if next.contains(x) && x != c {
                    let q = choose|q: int| 0 <= q < next.len() && next[q] == x;
                    assert(seen[q] == x);
                }
            }
            assert forall|x: u8| removal_of(table@).dom().contains(x) <==> (removal_of(
                before,
            ).dom().contains(x) || (x == c && takes)) by {}
            assert forall|x: u8| #[trigger]
                removal_of(table@).dom().contains(x) implies removal_of(table@)[x]
                == new_removal[x] by {
                assert(removal_of(table@)[x] == table@[x]@);
                if x == c && takes {
                } else {
                    assert(removal_of(before).dom().contains(x));
                    assert(old_removal.dom().contains(x));
                    assert(removal_of(before)[x] == old_removal[x]);
                }
                assert(new_removal.dom().contains(x));
            }
            assert(removal_of(table@) =~= new_removal);
        }
        p += 1;
    }
    assert(cells.take(9) =~= cells);
    table
}

/// The subset holds cells of the board, as they are now.
pub open spec fn on_board_line(line: &Subset, board: &Board) -> bool {
    &&& crate::grid::on_board(line.indices@)
    &&& line.mirrors(board, line.indices@)
}

/// Block `u` points the digit out along a line of kind `o`, and the cell is
/// an unsolved cell of that line outside the block.
pub open spec fn pointing_takes(g: Grid, o: Orientation, u: int, i: u8, v: u8) -> bool {
    &&& 1 <= v <= 9
    &&& points(g, o, u, v)
    &&& unit_cells(o, pointing_lines(g, o, u, v)[0] as int).contains(i)
    &&& block_of(i as int) != u
    &&& !is_solved(g[i as int])
}

/// The rule takes a digit from a cell for block `u` and lines of kind `o`
/// just when the block points the digit out along the cell's line.
pub proof fn lemma_pointing_removes(g: Grid, o: Orientation, u: int, i: u8, v: u8)
    ensures
        removed_by_all(pointing(g, o, u), i).contains(v) == pointing_takes(g, o, u, i, v),
{
    let keep = |d: u8| points(g, o, u, d);
    let removal = |d: u8|
        pointing_removal(g, unit_cells(o, pointing_lines(g, o, u, d)[0] as int), u, d);
    crate::solvers::lemma_filter_map_removes(digits(), keep, removal, i, v);
    if removed_by_all(pointing(g, o, u), i).contains(v) {
        let j = choose|j: int|
            0 <= j < digits().len() && keep(#[trigger] digits()[j]) && removed_by(
                removal(digits()[j]),
                i,
            ).contains(v);
        assert(digits()[j] == v);
    }
    if pointing_takes(g, o, u, i, v) {
        assert(digits()[v - 1] == v);
        assert(keep(digits()[v - 1]) && removed_by(removal(digits()[v - 1]), i).contains(v));
    }
}

/// Whether some block points the digit out along a row or a column through
/// the cell, which lies outside that block and is unsolved.
pub open spec fn pointing_anywhere(g: Grid, i: u8, v: u8) -> bool {
    exists|o: Orientation, u: int|
        o != Orientation::Block && 0 <= u < 9 && #[trigger] pointing_takes(g, o, u, i, v)
}

/// One pass of the solver takes a digit from a cell just when some block
/// points the digit out along the cell's row or column.
pub proof fn lemma_pointing_pass(g: Grid, i: u8, v: u8)
    requires
        g.len() == 81,
        i <= 80,
    ensures
        without_all(g, pass::<Pointing>(g))[i as int].contains(v) == (g[i as int].contains(v)
            && !pointing_anywhere(g, i, v)),
{
    crate::solvers::lemma_pass_removes::<Pointing>(g, i, v);
    if crate::solvers::pass_removes::<Pointing>(g, i, v) {
        let k = choose|k: int|
            0 <= k < Pointing::sweeps().len() && crate::solvers::units_remove::<Pointing>(
                g,
                #[trigger] Pointing::sweeps()[k],
                9,
                i,
                v,
            );
        let o = Pointing::sweeps()[k];
        let u = choose|u: int|
            0 <= u < 9 && removed_by_all(#[trigger] Pointing::deduce(g, o, u), i).contains(v);
        lemma_pointing_removes(g, o, u, i, v);
        assert(pointing_takes(g, o, u, i, v));
    }
    if pointing_anywhere(g, i, v) {
        let (o, u) = choose|o: Orientation, u: int|
            o != Orientation::Block && 0 <= u < 9 && #[trigger] pointing_takes(g, o, u, i, v);
        lemma_pointing_removes(g, o, u, i, v);
        let k: int = if o == Orientation::Row {
            0
        } else {
            1
        };
        assert(Pointing::sweeps()[k] == o);
        assert(removed_by_all(Pointing::deduce(g, o, u), i).contains(v));
        assert(crate::solvers::units_remove::<Pointing>(g, Pointing::sweeps()[k], 9, i, v));
    }
}

/// Pointing, outside the block: where the cells of block `u` that still
/// hold a digit lie in one line, no cell of that line outside the block
/// holds the digit after one pass of the solver. A solved cell there that
/// has the digit is not touched, so the line is to hold none.
pub proof fn lemma_pointing_clears_line(g: Grid, o: Orientation, u: int, i: u8, v: u8)
    requires
        g.len() == 81,
        0 <= u < 9,
        o != Orientation::Block,
        1 <= v <= 9,
        points(g, o, u, v),
        unit_cells(o, pointing_lines(g, o, u, v)[0] as int).contains(i),
        i <= 80,
        block_of(i as int) != u,
        !(is_solved(g[i as int]) && g[i as int].contains(v)),
    ensures
        !without_all(g, pass::<Pointing>(g))[i as int].contains(v),
{
    lemma_pointing_pass(g, i, v);
    if !is_solved(g[i as int]) {
        assert(pointing_takes(g, o, u, i, v));
    }
}

/// Pointing, inside the block: a cell of block `u` holds the digit after one
/// pass of the solver just when it held it before, as far as no other block
/// points the digit out along a line through that cell.
pub proof fn lemma_pointing_keeps_block(g: Grid, u: int, i: u8, v: u8)
    requires
        g.len() == 81,
        0 <= u < 9,
        i <= 80,
        block_of(i as int) == u,
        forall|o: Orientation, other: int|
            o != Orientation::Block && 0 <= other < 9 && other != u ==> !#[trigger] pointing_takes(
                g,
                o,
                other,
                i,
                v,
            ),
    ensures
        without_all(g, pass::<Pointing>(g))[i as int].contains(v) == g[i as int].contains(v),
{
    lemma_pointing_pass(g, i, v);
}

/// Soundness: a pass of the solver on a grid that allows a solved Sudoku
/// leaves a grid that allows it.
pub proof fn lemma_pointing_sound(g: Grid, s: Seq<u8>)
    requires
        crate::grid::grid_wf(g),
        crate::rules::is_complete(s),
        crate::rules::allows(g, s),
    ensures
        crate::rules::allows(without_all(g, pass::<Pointing>(g)), s),
{
    assert forall|k: int, u: int, i: int|
        0 <= k < Pointing::sweeps().len() && 0 <= u < 9 && 0 <= i < 81 implies !(
        #[trigger] removed_by_all(Pointing::deduce(g, Pointing::sweeps()[k], u), i as u8)).contains(
            s[i],
        ) by {
        let o = Pointing::sweeps()[k];
        let v = s[i];
        lemma_pointing_removes(g, o, u, i as u8, v);
        if pointing_takes(g, o, u, i as u8, v) {
            let block = unit_cells(Orientation::Block, u);
            lemma_unit_on_board(Orientation::Block, u);
            let p = crate::rules::lemma_unit_has_digit(s, Orientation::Block, u, v);
            let c = block[p];
            assert(g[c as int].contains(v));
            if is_solved(g[c as int]) {
                assert(crate::grid::unit_view(g, block)[p] == g[c as int]);
                assert(solved_values(g, block).contains(v));
            } else {
                crate::solvers::tools::lemma_holding(g, block, v, true);
                let held = holders(g, block, v);
                assert(held.contains(block[p]));
                let j = choose|j: int| 0 <= j < held.len() && held[j] == c;
                let lines = pointing_lines(g, o, u, v);
                assert(lines[j] == unit_of(o, c as int) as u8);
                assert(lines[j] == lines[0]);
                crate::geometry::lemma_cell_in_unit(o, c as int);
                crate::geometry::lemma_unit_cell(Orientation::Block, u, p);
                let line = unit_of(o, c as int);
                lemma_unit_on_board(o, line);
                assert(unit_cells(o, line)[crate::geometry::position_in(o, c as int)] == c);
                assert(unit_cells(o, line).contains(c));
                assert(block_of(c as int) == u);
                crate::rules::lemma_cells_of_unit_peers(o, line, c, i as u8);
            }
        }
    }
    crate::solvers::lemma_sound_pass::<Pointing>(g, s);
}

/// The solver for pointing pairs and triples.
pub struct Pointing;

impl Rule for Pointing {
    open spec fn label() -> Seq<char> {
        "Pointing"@
    }

    open spec fn sweeps() -> Seq<Orientation> {
        seq![Orientation::Row, Orientation::Column]
    }

    open spec fn deduce(g: Grid, o: Orientation, u: int) -> Seq<Removal> {
        pointing(g, o, u)
    }
}

impl SolveProbabilities for Pointing {
    fn name() -> (name: String) {
        String::from_str("Pointing")
    }

    fn orientations() -> (kinds: Vec<Orientation>) {
        let kinds = vec![Orientation::Row, Orientation::Column];
        assert(kinds@ =~= Self::sweeps());
        kinds
    }

    fn logic(board: &Board, orientation: &Orientation, index: u8) -> (strategies: Vec<Strategy>) {
        let mut strategies: Vec<Strategy> = Vec::new();
        let subset = board.block(index);
        let values_solved = subset.values_solved();
        let ghost keep = |d: u8| points(board@, *orientation, index as int, d);
        let ghost removal = |d: u8|
            pointing_removal(
                board@,
                unit_cells(
                    *orientation,
                    pointing_lines(board@, *orientation, index as int, d)[0] as int,
                ),
                index as int,
                d,
            );
        proof {
            lemma_unit_on_board(Orientation::Block, index as int);
            assert(digits().take(0).filter(keep) =~= Seq::empty()) by {
                reveal(Seq::filter);
            }
            assert(removals_of(strategies@) =~= digits().take(0).filter(keep).map_values(removal));
            assert(Self::sweeps()[0] == Orientation::Row);
            assert(Self::sweeps()[1] == Orientation::Column);
        }
        let mut p: u8 = 1;
        while p <= 9
            invariant
                board.wf(),
                index < 9,
                1 <= p <= 10,
                *orientation == Orientation::Row || *orientation == Orientation::Column,
                subset.wf(),
                subset.mirrors(board, unit_cells(Orientation::Block, index as int)),
                subset.indices@ == unit_cells(Orientation::Block, index as int),
                crate::grid::on_board(subset.indices@),
                values_solved@ == solved_values(
                    board@,
                    unit_cells(Orientation::Block, index as int),
                ),
                keep == |d: u8| points(board@, *orientation, index as int, d),
                removal == |d: u8|
                    pointing_removal(
                        board@,
                        unit_cells(
                            *orientation,
                            pointing_lines(board@, *orientation, index as int, d)[0] as int,
                        ),
                        index as int,
                        d,
                    ),
                removals_of(strategies@) == digits().take(p - 1).filter(keep).map_values(removal),
                all_named(strategies@, Self::label()),
            decreases 10 - p,
        {
            proof {
                let seen = digits().take(p - 1);
                assert(digits().take(p as int) =~= seen.push(p));
                seen.lemma_filter_push(p, keep);
                seen.filter(keep).lemma_push_map_commute(removal, p);
            }
            if !values_solved.contains(&p) {
                let missing_line = units_holding(board, &subset, orientation, p, true);
                if is_uniform(&missing_line) {
                    let line_index = missing_line[0];
                    proof {
                        let held = holders(board@, subset.indices@, p);
                        crate::solvers::tools::lemma_holding(board@, subset.indices@, p, true);
                        assert(subset.indices@.contains(held[0]));
                        let r = choose|r: int|
                            0 <= r < subset.indices@.len() && subset.indices@[r] == held[0];
                        crate::geometry::lemma_cell_in_unit(*orientation, held[0] as int);
                        lemma_unit_on_board(*orientation, line_index as int);
                    }
                    let line = match orientation {
                        Orientation::Row => board.row(line_index),
                        _ => board.column(line_index),
                    };
                    let table = pointing_table(board, &line, index, p);
                    let strategy = Strategy::new(Self::name(), table);
                    proof {
                        strategies@.lemma_push_map_commute(|s: Strategy| s@, strategy);
                    }
                    strategies.push(strategy);
                }
            }
            p += 1;
        }
        assert(digits().take(9) =~= digits());
        strategies
    }
}

} // verus!
