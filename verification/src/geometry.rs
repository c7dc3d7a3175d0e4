//! The fixed 9x9 topology: which cells make up a row, a column or a block,
//! and which row, column and block a cell belongs to.

use vstd::prelude::*;

verus! {

/// The three kinds of unit.
#[derive(Debug, Clone, Copy, PartialEq, Eq, Structural)]
pub enum Orientation {
    Row,
    Column,
    Block,
}

/// Cell at position `p` of row `u`.
pub open spec fn row_cell(u: int, p: int) -> int {
    u * 9 + p
}

/// Cell at position `p` of column `u`.
pub open spec fn column_cell(u: int, p: int) -> int {
    p * 9 + u
}

/// Cell at position `p` of block `u`; blocks and the cells inside a block are
/// both counted left to right, top to bottom.
pub open spec fn block_cell(u: int, p: int) -> int {
    27 * (u / 3) + 3 * (u % 3) + (p / 3) * 9 + (p % 3)
}

/// Row that holds cell `i`.
pub open spec fn row_of(i: int) -> int {
    i / 9
}

/// Column that holds cell `i`.
pub open spec fn column_of(i: int) -> int {
    i % 9
}

/// Block that holds cell `i`.
pub open spec fn block_of(i: int) -> int {
    i / 3 - (i / 9) * 3 + (i / 27) * 3
}

/// Cell at position `p` of unit `u` of the given kind.
pub open spec fn unit_cell(o: Orientation, u: int, p: int) -> int {
    match o {
        Orientation::Row => row_cell(u, p),
        Orientation::Column => column_cell(u, p),
        Orientation::Block => block_cell(u, p),
    }
}

/// Unit of the given kind that holds cell `i`.
pub open spec fn unit_of(o: Orientation, i: int) -> int {
    match o {
        Orientation::Row => row_of(i),
        Orientation::Column => column_of(i),
        Orientation::Block => block_of(i),
    }
}

/// Position of cell `i` inside its unit of the given kind.
pub open spec fn position_in(o: Orientation, i: int) -> int {
    match o {
        Orientation::Row => i % 9,
        Orientation::Column => i / 9,
        Orientation::Block => ((i / 9) % 3) * 3 + i % 3,
    }
}

/// The nine cells of a unit, in position order.
pub open spec fn unit_cells(o: Orientation, u: int) -> Seq<u8> {
    Seq::new(9, |p: int| unit_cell(o, u, p) as u8)
}

/// What the block formulas say, with the divisions worked out.
proof fn lemma_block_cell(u: int, p: int)
    requires
        0 <= u < 9,
        0 <= p < 9,
    ensures
        0 <= block_cell(u, p) <= 80,
        block_of(block_cell(u, p)) == u,
        (block_cell(u, p) / 9) % 3 == p / 3,
        block_cell(u, p) % 3 == p % 3,
{
    let a = u / 3;
    let b = u % 3;
    let c = p / 3;
    let d = p % 3;
    let i = block_cell(u, p);
    assert(i == 27 * a + 3 * b + 9 * c + d);
    assert(i / 3 == 9 * a + b + 3 * c);
    assert(i / 9 == 3 * a + c);
    assert(i / 27 == a);
}

/// Every unit cell is a cell of the board, and lies in the unit it was taken
/// from, at the position it was taken from.
pub proof fn lemma_unit_cell(o: Orientation, u: int, p: int)
    requires
        0 <= u < 9,
        0 <= p < 9,
    ensures
        0 <= unit_cell(o, u, p) <= 80,
        unit_of(o, unit_cell(o, u, p)) == u,
        position_in(o, unit_cell(o, u, p)) == p,
{
    match o {
        Orientation::Row => {},
        Orientation::Column => {},
        Orientation::Block => {
            lemma_block_cell(u, p);
        },
    }
}

/// Every cell of the board is the cell at its position in its unit.
pub proof fn lemma_cell_in_unit(o: Orientation, i: int)
    requires
        0 <= i <= 80,
    ensures
        0 <= unit_of(o, i) < 9,
        0 <= position_in(o, i) < 9,
        unit_cell(o, unit_of(o, i), position_in(o, i)) == i,
{
    match o {
        Orientation::Row => {},
        Orientation::Column => {},
        Orientation::Block => {
            let r = i / 9;
            let c = i % 9;
            let a = r / 3;
            let b = c / 3;
            assert(i / 27 == a);
            assert(i / 3 == 3 * r + b);
            assert(block_of(i) == 3 * a + b);
            assert((3 * a + b) / 3 == a);
            assert((3 * a + b) % 3 == b);
            let p = (r % 3) * 3 + i % 3;
            assert(i % 3 == c % 3);
            assert(p / 3 == r % 3);
            assert(p % 3 == c % 3);
        },
    }
}

/// Within a unit, cell indices grow with the position.
pub proof fn lemma_unit_increasing(o: Orientation, u: int, p: int, q: int)
    requires
        0 <= u < 9,
        0 <= p < q < 9,
    ensures
        unit_cell(o, u, p) < unit_cell(o, u, q),
{
}

/// The formulas from a unit and a position to a cell.
pub struct SubsetIndexToSubset;

impl SubsetIndexToSubset {
    /// The cell at position `iter` of row `i`.
    pub fn row(i: u8, iter: u8) -> (cell: u8)
        requires
            i < 9,
            iter < 9,
        ensures
            cell == row_cell(i as int, iter as int),
            cell <= 80,
    {
        i * 9 + iter
    }

    /// The cell at position `iter` of column `i`.
    pub fn column(i: u8, iter: u8) -> (cell: u8)
        requires
            i < 9,
            iter < 9,
        ensures
            cell == column_cell(i as int, iter as int),
            cell <= 80,
    {
        iter * 9 + i
    }

    /// The cell at position `iter` of block `i`.
    pub fn block(i: u8, iter: u8) -> (cell: u8)
        requires
            i < 9,
            iter < 9,
        ensures
            cell == block_cell(i as int, iter as int),
            cell <= 80,
    {
        27 * (i / 3) + 3 * (i % 3) + (iter / 3) * 9 + (iter % 3)
    }
}

/// The formulas from any cell of a unit and a position to the cell of that
/// unit at that position.
pub struct BoardIndexFormulas;

impl BoardIndexFormulas {
    /// The cell at position `iter` of the row of cell `i`.
    pub fn row(i: u8, iter: u8) -> (cell: u8)
        requires
            i <= 80,
            iter < 9,
        ensures
            cell == row_cell(row_of(i as int), iter as int),
            cell <= 80,
    {
        (i / 9) * 9 + iter
    }

    /// The cell at position `iter` of the column of cell `i`.
    pub fn column(i: u8, iter: u8) -> (cell: u8)
        requires
            i <= 80,
            iter < 9,
        ensures
            cell == column_cell(column_of(i as int), iter as int),
            cell <= 80,
    {
        i % 9 + 9 * iter
    }

    /// The cell at position `iter` of the block of cell `i`.
    pub fn block(i: u8, iter: u8) -> (cell: u8)
        requires
            i <= 80,
            iter < 9,
        ensures
            cell == block_cell(block_of(i as int), iter as int),
            cell <= 80,
    {
        SubsetIndexToSubset::block(i / 3 - i / 9 * 3 + i / 27 * 3, iter)
    }
}

} // verus!
