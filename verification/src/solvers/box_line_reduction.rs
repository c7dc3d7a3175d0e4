//! Box-line reduction: where a line can take a digit in one block only, the
//! rest of that block cannot take it.

use crate::board::{lemma_unit_on_board, Board};
use crate::cell::is_solved;
use crate::combinatorics::{lemma_distinct_uniform, unique, uniform};
use crate::geometry::{unit_cells, unit_of, Orientation};
use crate::grid::{removed_by, removed_by_all, without_all, Grid, Removal};
use crate::solvers::pointing::on_board_line;
use crate::solvers::tools::{carriers, digits, hash_set_with, units_holding, units_of};
use crate::solvers::{all_named, pass, removals_of, Rule, SolveProbabilities};
use crate::strategy::{removal_of, Strategy};
use crate::subset::Subset;
use std::collections::{HashMap, HashSet};
use vstd::prelude::*;

verus! {

broadcast use {vstd::std_specs::hash::group_hash_axioms, vstd::array::group_array_axioms};

/// The blocks in which the cells of line `u` of kind `o` that hold the
/// digit lie, one for each such cell, solved or not.
pub open spec fn line_blocks(g: Grid, o: Orientation, u: int, digit: u8) -> Seq<u8> {
    units_of(Orientation::Block, carriers(g, unit_cells(o, u), digit))
}

/// Takes the digit from every unsolved cell of the block that holds it and
/// does not lie on line `u` of kind `o`.
pub open spec fn box_line_removal(g: Grid, o: Orientation, u: int, block: Seq<u8>, digit: u8) -> Removal {
    Map::new(
        |c: u8|
            block.contains(c) && unit_of(o, c as int) != u && !is_solved(g[c as int])
                && g[c as int].contains(digit),
        |c: u8| set![digit],
    )
}

/// The removal that line `u` of kind `o` gives for the digit, in the block
/// of the first cell of the line that holds the digit.
pub open spec fn reduction(g: Grid, o: Orientation, u: int, digit: u8) -> Removal {
    box_line_removal(
        g,
        o,
        u,
        unit_cells(Orientation::Block, line_blocks(g, o, u, digit)[0] as int),
        digit,
    )
}

/// The cells of the line that hold the digit, solved or not, lie in one
/// block, and there is something to take from the rest of that block.
pub open spec fn reduces(g: Grid, o: Orientation, u: int, digit: u8) -> bool {
    &&& uniform(line_blocks(g, o, u, digit))
    &&& !reduction(g, o, u, digit).dom().is_empty()
}

/// The removals that line `u` of kind `o` gives, digit by digit.
pub open spec fn box_line(g: Grid, o: Orientation, u: int) -> Seq<Removal> {
    digits().filter(|d: u8| reduces(g, o, u, d)).map_values(|d: u8| reduction(g, o, u, d))
}

/// The table that gives every unsolved cell of the block that holds the
/// digit and lies off the line the digit.
fn box_line_table(board: &Board, block: &Subset, orientation: &Orientation, index: u8, digit: u8) -> (table:
    HashMap<u8, HashSet<u8>>)
    requires
        board.wf(),
        on_board_line(block, board),
    ensures
        removal_of(table@) == box_line_removal(
            board@,
            *orientation,
            index as int,
            block.indices@,
            digit,
        ),
        table@.dom() == removal_of(table@).dom(),
{
    let mut table: HashMap<u8, HashSet<u8>> = HashMap::new();
    let ghost cells = block.indices@;
    let ghost o = *orientation;
    let mut p: usize = 0;
    proof {
        block.lemma_mirrors(board, cells);
        block.lemma_view();
        assert(removal_of(table@) =~= box_line_removal(
            board@,
            o,
            index as int,
            cells.take(0),
            digit,
        ));
    }
    while p < 9
        invariant
            board.wf(),
            p <= 9,
            o == *orientation,
            cells == block.indices@,
            cells.len() == 9,
            crate::grid::on_board(cells),
            block.wf(),
            block@ == crate::grid::unit_view(board@, cells),
            removal_of(table@) == box_line_removal(
                board@,
                o,
                index as int,
                cells.take(p as int),
                digit,
            ),
            forall|q: int|
                0 <= q < 9 ==> is_solved(#[trigger] block@[q]) == (
                block.cells@[q].probabilities@.len() == 1),
        decreases 9 - p,
    {
        let cell = &block.cells[p];
        let ghost before = table@;
        let ghost c = cells[p as int];
        proof {
            assert(block@[p as int] == board@[c as int]);
            assert(cell.index == c);
            crate::geometry::lemma_cell_in_unit(o, c as int);
        }
        let line_index = match orientation {
            Orientation::Row => cell.row(),
            Orientation::Column => cell.column(),
            Orientation::Block => cell.block(),
        };
        let takes = line_index != index && !cell.solved() && cell.contains(&digit);
        if takes {
            table.insert(cell.index, hash_set_with(digit));
        }
        proof {
            let seen = cells.take(p as int);
            let next = cells.take(p + 1);
            let old_removal = box_line_removal(board@, o, index as int, seen, digit);
            let new_removal = box_line_removal(board@, o, index as int, next, digit);
            assert(next =~= seen.push(c));
            assert forall|x: u8| new_removal.dom().contains(x) <==> (old_removal.dom().contains(x)
                || (x == c && takes)) by {
                if seen.contains(x) {
                    let q = choose|q: int| 0 <= q < seen.len() && seen[q] == x;
                    assert(next[q] == x);
                }
                assert(next[p as int] == c);
                if next.contains(x) && x != c {
                    let q = choose|q: int| 0 <= q < next.len() && next[q] == x;
                    assert(seen[q] == x);
                }
            }
            assert forall|x: u8| removal_of(table@).dom().contains(x) <==> (removal_of(
                before,
            ).dom().contains(x) || (x == c && takes)) by {}
            assert forall|x: u8| #[trigger]
                removal_of(table@).dom().contains(x) implies removal_of(table@)[x]
                == new_removal[x] by {
                assert(removal_of(table@)[x] == table@[x]@);
                if x == c && takes {
                } else {
                    assert(removal_of(before).dom().contains(x));
                    assert(old_removal.dom().contains(x));
                    assert(removal_of(before)[x] == old_removal[x]);
                }
                assert(new_removal.dom().contains(x));
            }
            assert(removal_of(table@) =~= new_removal);
        }
        p += 1;
    }
    proof {
        assert(cells.take(9) =~= cells);
        assert(table@.dom() =~= removal_of(table@).dom());
    }
    table
}

/// Line `u` of kind `o` gives a removal for the digit, and the removal
/// names the cell.
pub open spec fn box_line_takes(g: Grid, o: Orientation, u: int, i: u8, v: u8) -> bool {
    &&& 1 <= v <= 9
    &&& reduces(g, o, u, v)
    &&& reduction(g, o, u, v).dom().contains(i)
}

/// The rule takes a digit from a cell for line `u` of kind `o` just when
/// the line gives a removal for the digit that names the cell.
pub proof fn lemma_box_line_removes(g: Grid, o: Orientation, u: int, i: u8, v: u8)
    ensures
        removed_by_all(box_line(g, o, u), i).contains(v) == box_line_takes(g, o, u, i, v),
{
    let keep = |d: u8| reduces(g, o, u, d);
    let removal = |d: u8| reduction(g, o, u, d);
    crate::solvers::lemma_filter_map_removes(digits(), keep, removal, i, v);
    if removed_by_all(box_line(g, o, u), i).contains(v) {
        let j = choose|j: int|
            0 <= j < digits().len() && keep(#[trigger] digits()[j]) && removed_by(
                removal(digits()[j]),
                i,
            ).contains(v);
        assert(digits()[j] == v);
    }
    if box_line_takes(g, o, u, i, v) {
        assert(digits()[v - 1] == v);
        assert(keep(digits()[v - 1]) && removed_by(removal(digits()[v - 1]), i).contains(v));
    }
}

/// Soundness: a pass of the solver on a grid that allows a solved Sudoku
/// leaves a grid that allows it.
pub proof fn lemma_box_line_sound(g: Grid, s: Seq<u8>)
    requires
        crate::grid::grid_wf(g),
        crate::rules::is_complete(s),
        crate::rules::allows(g, s),
    ensures
        crate::rules::allows(without_all(g, pass::<BoxLineReduction>(g)), s),
{
    assert forall|k: int, u: int, i: int|
        0 <= k < BoxLineReduction::sweeps().len() && 0 <= u < 9 && 0 <= i < 81 implies !(
        #[trigger] removed_by_all(
            BoxLineReduction::deduce(g, BoxLineReduction::sweeps()[k], u),
            i as u8,
        )).contains(s[i]) by {
        let o = BoxLineReduction::sweeps()[k];
        let v = s[i];
        lemma_box_line_removes(g, o, u, i as u8, v);
        if box_line_takes(g, o, u, i as u8, v) {
            let line = unit_cells(o, u);
            lemma_unit_on_board(o, u);
            let p = crate::rules::lemma_unit_has_digit(s, o, u, v);
            let c = line[p];
            assert(g[c as int].contains(v));
            crate::solvers::tools::lemma_holding(g, line, v, false);
            let held = carriers(g, line, v);
            assert(held.contains(line[p]));
            let j = choose|j: int| 0 <= j < held.len() && held[j] == c;
            let blocks = line_blocks(g, o, u, v);
            assert(blocks[j] == unit_of(Orientation::Block, c as int) as u8);
            assert(blocks[j] == blocks[0]);
            crate::geometry::lemma_cell_in_unit(Orientation::Block, c as int);
            crate::geometry::lemma_unit_cell(o, u, p);
            let block = unit_of(Orientation::Block, c as int);
            lemma_unit_on_board(Orientation::Block, block);
            assert(unit_cells(Orientation::Block, block)[crate::geometry::position_in(
                Orientation::Block,
                c as int,
            )] == c);
            assert(unit_cells(Orientation::Block, block).contains(c));
            assert(unit_of(o, c as int) == u);
            crate::rules::lemma_cells_of_unit_peers(Orientation::Block, block, c, i as u8);
        }
    }
    crate::solvers::lemma_sound_pass::<BoxLineReduction>(g, s);
}

/// The solver for box-line reduction.
pub struct BoxLineReduction;

impl Rule for BoxLineReduction {
    open spec fn label() -> Seq<char> {
        "BoxLineReduction"@
    }

    open spec fn sweeps() -> Seq<Orientation> {
        seq![Orientation::Row, Orientation::Column]
    }

    open spec fn deduce(g: Grid, o: Orientation, u: int) -> Seq<Removal> {
        box_line(g, o, u)
    }
}

impl SolveProbabilities for BoxLineReduction {
    fn name() -> (name: String) {
        String::from_str("BoxLineReduction")
    }

    fn orientations() -> (kinds: Vec<Orientation>) {
        let kinds = vec![Orientation::Row, Orientation::Column];
        assert(kinds@ =~= Self::sweeps());
        kinds
    }

    fn logic(board: &Board, orientation: &Orientation, index: u8) -> (strategies: Vec<Strategy>) {
        let mut strategies: Vec<Strategy> = Vec::new();
        let subset = Self::create_subset(board, orientation, index);
        let ghost o = *orientation;
        let ghost keep = |d: u8| reduces(board@, o, index as int, d);
        let ghost removal = |d: u8| reduction(board@, o, index as int, d);
        proof {
            lemma_unit_on_board(o, index as int);
            assert(digits().take(0).filter(keep) =~= Seq::empty()) by {
                reveal(Seq::filter);
            }
            assert(removals_of(strategies@) =~= digits().take(0).filter(keep).map_values(removal));
        }
        let mut p: u8 = 1;
        while p <= 9
            invariant
                board.wf(),
                index < 9,
                1 <= p <= 10,
                o == *orientation,
                subset.wf(),
                subset.mirrors(board, unit_cells(o, index as int)),
                subset.indices@ == unit_cells(o, index as int),
                crate::grid::on_board(subset.indices@),
                keep == |d: u8| reduces(board@, o, index as int, d),
                removal == |d: u8| reduction(board@, o, index as int, d),
                removals_of(strategies@) == digits().take(p - 1).filter(keep).map_values(removal),
                all_named(strategies@, Self::label()),
            decreases 10 - p,
        {
            proof {
                let seen = digits().take(p - 1);
                assert(digits().take(p as int) =~= seen.push(p));
                seen.lemma_filter_push(p, keep);
                seen.filter(keep).lemma_push_map_commute(removal, p);
            }
            let block_indices = units_holding(board, &subset, &Orientation::Block, p, false);
            let different = unique(&block_indices);
            proof {
                lemma_distinct_uniform(block_indices@);
            }
            if different.len() == 1 {
                let block_index = block_indices[0];
                proof {
                    let held = carriers(board@, subset.indices@, p);
                    crate::solvers::tools::lemma_holding(board@, subset.indices@, p, false);
                    assert(subset.indices@.contains(held[0]));
                    let r = choose|r: int|
                        0 <= r < subset.indices@.len() && subset.indices@[r] == held[0];
                    crate::geometry::lemma_cell_in_unit(Orientation::Block, held[0] as int);
                    lemma_unit_on_board(Orientation::Block, block_index as int);
                }
                let block = board.block(block_index);
                let table = box_line_table(board, &block, orientation, index, p);
                if !table.is_empty() {
                    let strategy = Strategy::new(Self::name(), table);
                    proof {
                        strategies@.lemma_push_map_commute(|s: Strategy| s@, strategy);
                    }
                    strategies.push(strategy);
                }
            }
            p += 1;
        }
        assert(digits().take(9) =~= digits());
        strategies
    }
}

} // verus!
