//! The rules of the game, and what it means for a board to agree with a
//! solution.

use crate::board::{lemma_blank_is_unsolved, lemma_unit_on_board, taken};
use crate::cell::{
    all_digits, is_solved, lemma_singleton_is_solved, lemma_solved_is_singleton, value_of,
};
use crate::geometry::{
    block_of, column_of, lemma_cell_in_unit, lemma_unit_cell, position_in, row_of, unit_cell,
    unit_cells, unit_of, Orientation,
};
use crate::grid::{grid_wf, solved_values, unit_view, Grid};
use vstd::prelude::*;

verus! {

/// Two different cells that share a row, a column or a block.
pub open spec fn peers(a: int, b: int) -> bool {
    &&& a != b
    &&& (row_of(a) == row_of(b) || column_of(a) == column_of(b) || block_of(a) == block_of(b))
}

/// No two solved cells of one row, column or block have the same digit.
pub open spec fn units_distinct(g: Grid) -> bool {
    forall|a: int, b: int|
        0 <= a < 81 && 0 <= b < 81 && peers(a, b) && is_solved(#[trigger] g[a]) && is_solved(
            #[trigger] g[b],
        ) ==> value_of(g[a]) != value_of(g[b])
}

/// A solved Sudoku: a digit from `1` to `9` for every cell, no digit twice
/// in a row, a column or a block.
pub open spec fn is_complete(s: Seq<u8>) -> bool {
    &&& s.len() == 81
    &&& forall|i: int| 0 <= i < 81 ==> 1 <= #[trigger] s[i] <= 9
    &&& forall|a: int, b: int|
        0 <= a < 81 && 0 <= b < 81 && peers(a, b) ==> #[trigger] s[a] != #[trigger] s[b]
}

/// The grid still allows the solved Sudoku: every cell holds the digit that
/// the cell has there.
pub open spec fn allows(g: Grid, s: Seq<u8>) -> bool {
    forall|i: int| 0 <= i < 81 ==> (#[trigger] g[i]).contains(s[i])
}

/// Every candidate on the grid is one of the digits `1` to `9`.
pub open spec fn digits_only(g: Grid) -> bool {
    forall|i: int, v: u8| 0 <= i < 81 && #[trigger] g[i].contains(v) ==> 1 <= v <= 9
}

/// Two cells of one unit at different places are peers.
pub proof fn lemma_unit_peers(o: Orientation, u: int, p: int, q: int)
    requires
        0 <= u < 9,
        0 <= p < 9,
        0 <= q < 9,
        p != q,
    ensures
        peers(unit_cell(o, u, p), unit_cell(o, u, q)),
        0 <= unit_cell(o, u, p) <= 80,
        0 <= unit_cell(o, u, q) <= 80,
{
    lemma_unit_cell(o, u, p);
    lemma_unit_cell(o, u, q);
}

/// Two different cells of the board that lie in one unit are peers.
pub proof fn lemma_cells_of_unit_peers(o: Orientation, u: int, a: u8, b: u8)
    requires
        0 <= u < 9,
        unit_cells(o, u).contains(a),
        unit_cells(o, u).contains(b),
        a != b,
    ensures
        peers(a as int, b as int),
        a <= 80,
        b <= 80,
{
    lemma_unit_on_board(o, u);
    let p = choose|p: int| 0 <= p < unit_cells(o, u).len() && unit_cells(o, u)[p] == a;
    let q = choose|q: int| 0 <= q < unit_cells(o, u).len() && unit_cells(o, u)[q] == b;
    lemma_unit_peers(o, u, p, q);
}

/// Distinct values, as many as a set has members, all of them from the set
/// or covering it, are the members of the set.
pub proof fn lemma_pigeonhole(xs: Seq<u8>, set: Set<u8>)
    requires
        xs.no_duplicates(),
        set.finite(),
        set.len() == xs.len(),
        xs.to_set().subset_of(set) || set.subset_of(xs.to_set()),
    ensures
        xs.to_set() == set,
{
    xs.unique_seq_to_set();
    if xs.to_set().subset_of(set) {
        vstd::set_lib::lemma_subset_equality(xs.to_set(), set);
    } else {
        vstd::set_lib::lemma_subset_equality(set, xs.to_set());
    }
}

/// In a solved Sudoku every unit has every digit.
pub proof fn lemma_unit_has_digit(s: Seq<u8>, o: Orientation, u: int, d: u8) -> (p: int)
    requires
        is_complete(s),
        0 <= u < 9,
        1 <= d <= 9,
    ensures
        0 <= p < 9,
        0 <= unit_cell(o, u, p) <= 80,
        s[unit_cell(o, u, p)] == d,
{
    let xs = Seq::new(9, |p: int| s[unit_cell(o, u, p)]);
    assert forall|p: int, q: int| 0 <= p < 9 && 0 <= q < 9 && p != q implies xs[p] != xs[q] by {
        lemma_unit_peers(o, u, p, q);
    }
    lemma_blank_is_unsolved();
    assert(xs.to_set().subset_of(all_digits())) by {
        assert forall|v: u8| xs.to_set().contains(v) implies all_digits().contains(v) by {
            let p = choose|p: int| 0 <= p < xs.len() && xs[p] == v;
            lemma_unit_cell(o, u, p);
        }
    }
    lemma_pigeonhole(xs, all_digits());
    assert(xs.to_set().contains(d));
    let p = choose|p: int| 0 <= p < xs.len() && xs[p] == d;
    lemma_unit_cell(o, u, p);
    p
}

/// A solved cell of a grid that allows a solved Sudoku has its digit.
pub proof fn lemma_allowed_value(g: Grid, s: Seq<u8>, i: int)
    requires
        grid_wf(g),
        allows(g, s),
        0 <= i < 81,
        is_solved(g[i]),
    ensures
        value_of(g[i]) == s[i],
        g[i] == set![s[i]],
{
    lemma_solved_is_singleton(g[i]);
    assert(g[i].contains(s[i]));
}

/// A grid that allows a solved Sudoku has no digit twice among the solved
/// cells of a unit.
pub proof fn lemma_allows_distinct(g: Grid, s: Seq<u8>)
    requires
        grid_wf(g),
        is_complete(s),
        allows(g, s),
    ensures
        units_distinct(g),
{
    assert forall|a: int, b: int|
        0 <= a < 81 && 0 <= b < 81 && peers(a, b) && is_solved(#[trigger] g[a]) && is_solved(
            #[trigger] g[b],
        ) implies value_of(g[a]) != value_of(g[b]) by {
        lemma_allowed_value(g, s, a);
        lemma_allowed_value(g, s, b);
    }
}

/// The digit of a solved cell is among the solved values of each unit that
/// the cell lies in.
pub proof fn lemma_solved_in_unit(g: Grid, o: Orientation, b: int)
    requires
        grid_wf(g),
        0 <= b < 81,
        is_solved(g[b]),
    ensures
        solved_values(g, unit_cells(o, unit_of(o, b))).contains(value_of(g[b])),
{
    lemma_cell_in_unit(o, b);
    let u = unit_of(o, b);
    let p = position_in(o, b);
    let cells = unit_cells(o, u);
    lemma_unit_on_board(o, u);
    lemma_solved_is_singleton(g[b]);
    assert(cells[p] == b);
    assert(unit_view(g, cells)[p] == g[b]);
}

/// Putting a digit that is free into a cell keeps the solved cells of every
/// unit distinct.
pub proof fn lemma_placing_keeps_distinct(g: Grid, i: int, v: u8)
    requires
        grid_wf(g),
        0 <= i < 81,
        units_distinct(g),
        !taken(g, i, v),
    ensures
        units_distinct(g.update(i, set![v])),
{
    let h = g.update(i, set![v]);
    lemma_singleton_is_solved(v);
    assert forall|a: int, b: int|
        0 <= a < 81 && 0 <= b < 81 && peers(a, b) && is_solved(#[trigger] h[a]) && is_solved(
            #[trigger] h[b],
        ) implies value_of(h[a]) != value_of(h[b]) by {
        if a != i && b != i {
            assert(is_solved(g[a]) && is_solved(g[b]));
        } else {
            let other = if a == i {
                b
            } else {
                a
            };
            assert(h[other] == g[other]);
            if row_of(other) == row_of(i) {
                lemma_solved_in_unit(g, Orientation::Row, other);
            } else if column_of(other) == column_of(i) {
                lemma_solved_in_unit(g, Orientation::Column, other);
            } else {
                lemma_solved_in_unit(g, Orientation::Block, other);
            }
        }
    }
}

} // verus!
