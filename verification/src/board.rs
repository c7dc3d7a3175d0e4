//! The board: eighty-one cells in row-major order.

use crate::cell::{
    all_digits, increasing, is_solved, lemma_increasing_set, same_cell, value_of, Cell,
};
use crate::digits::{decimal, digit_value, is_digit_char, parse_digit, push_decimal, InvalidInput};
use crate::geometry::{
    lemma_cell_in_unit, lemma_unit_cell, unit_cells, unit_of, BoardIndexFormulas, Orientation,
    SubsetIndexToSubset,
};
use crate::grid::{on_board, solved_values, unsolved, without, Grid};
use crate::strategy::Strategy;
use crate::subset::Subset;
use vstd::prelude::*;
use vstd::std_specs::cmp::PartialEqSpecImpl;

verus! {

/// Text that can be read as a puzzle: one digit per cell.
pub open spec fn valid_puzzle(text: Seq<char>) -> bool {
    &&& text.len() == 81
    &&& forall|i: int| 0 <= i < 81 ==> is_digit_char(#[trigger] text[i])
}

/// The candidates that a character of a puzzle gives its cell: every digit
/// for `'0'`, which is a blank, and the digit itself for any other.
pub open spec fn parse_cell(c: char) -> Set<u8> {
    if c == '0' {
        all_digits()
    } else {
        set![digit_value(c)]
    }
}

/// The grid that a puzzle text stands for.
pub open spec fn parse(text: Seq<char>) -> Grid {
    text.map_values(|c: char| parse_cell(c))
}

/// The text of a grid: the digit of each solved cell and `0` for each other
/// cell, one after the other.
pub open spec fn render(g: Grid) -> Seq<char>
    decreases g.len(),
{
    if g.len() == 0 {
        Seq::empty()
    } else {
        render(g.drop_last()) + decimal(value_of(g.last()))
    }
}

/// The number of candidates left on a grid, over all its cells.
pub open spec fn total_candidates(g: Grid) -> nat
    decreases g.len(),
{
    if g.len() == 0 {
        0
    } else {
        total_candidates(g.drop_last()) + g.last().len()
    }
}

/// The cells `0` to `80`, in order.
pub open spec fn all_cells() -> Seq<u8> {
    Seq::new(81, |i: int| i as u8)
}

/// Whether a digit is the value of a solved cell in the row, the column or
/// the block of cell `i`.
pub open spec fn taken(g: Grid, i: int, v: u8) -> bool {
    ||| solved_values(g, unit_cells(Orientation::Block, unit_of(Orientation::Block, i))).contains(v)
    ||| solved_values(g, unit_cells(Orientation::Row, unit_of(Orientation::Row, i))).contains(v)
    ||| solved_values(g, unit_cells(Orientation::Column, unit_of(Orientation::Column, i))).contains(
        v,
    )
}

/// The cells of a unit are cells of the board.
pub proof fn lemma_unit_on_board(o: Orientation, u: int)
    requires
        0 <= u < 9,
    ensures
        unit_cells(o, u).len() == 9,
        on_board(unit_cells(o, u)),
        forall|p: int| 0 <= p < 9 ==> (#[trigger] unit_cells(o, u)[p]) == crate::geometry::unit_cell(o, u, p),
{
    assert forall|p: int| 0 <= p < 9 implies (#[trigger] unit_cells(o, u)[p]) <= 80
        && unit_cells(o, u)[p] == crate::geometry::unit_cell(o, u, p) by {
        lemma_unit_cell(o, u, p);
    }
}

/// A blank holds nine candidates, so it is not solved and has no value.
pub proof fn lemma_blank_is_unsolved()
    ensures
        all_digits().finite(),
        all_digits().len() == 9,
        !is_solved(all_digits()),
        value_of(all_digits()) == 0,
{
    let listed: Seq<u8> = seq![1, 2, 3, 4, 5, 6, 7, 8, 9];
    assert(increasing(listed));
    lemma_increasing_set(listed);
    assert(listed.to_set() =~= all_digits()) by {
        assert forall|v: u8| all_digits().contains(v) implies listed.contains(v) by {
            assert(listed[v - 1] == v);
        }
    }
}

/// Text made of digits comes back from the grid that it stands for.
pub proof fn lemma_render_parse(text: Seq<char>)
    requires
        forall|i: int| 0 <= i < text.len() ==> is_digit_char(#[trigger] text[i]),
    ensures
        render(parse(text)) == text,
    decreases text.len(),
{
    if text.len() == 0 {
        assert(render(parse(text)) =~= text);
    } else {
        let front = text.drop_last();
        let c = text.last();
        lemma_render_parse(front);
        assert(parse(text).drop_last() =~= parse(front));
        assert(parse(text).last() == parse_cell(c));
        assert(is_digit_char(text[text.len() - 1]));
        crate::digits::lemma_digit_char_value(c);
        if c == '0' {
            lemma_blank_is_unsolved();
        } else {
            crate::cell::lemma_singleton_is_solved(digit_value(c));
        }
        assert(decimal(value_of(parse_cell(c))) =~= seq![c]);
        assert(render(parse(text)) =~= front + seq![c]);
        assert(front + seq![c] =~= text);
    }
}

/// The grid of a puzzle text is well formed, and its candidates are digits.
pub proof fn lemma_parse_wf(text: Seq<char>)
    requires
        valid_puzzle(text),
    ensures
        crate::grid::grid_wf(parse(text)),
        crate::rules::digits_only(parse(text)),
{
    lemma_blank_is_unsolved();
    assert forall|i: int| 0 <= i < 81 implies (#[trigger] parse(text)[i]).finite() by {
        crate::cell::lemma_singleton_is_solved(digit_value(text[i]));
    }
    assert forall|i: int, v: u8| 0 <= i < 81 && #[trigger] parse(text)[i].contains(v) implies 1
        <= v <= 9 by {
        assert(is_digit_char(text[i]));
        crate::digits::lemma_digit_char_value(text[i]);
    }
}

/// Round trip: a puzzle text that is read and written again comes back
/// unchanged.
pub proof fn lemma_round_trip(text: Seq<char>)
    requires
        valid_puzzle(text),
    ensures
        render(parse(text)) == text,
{
    lemma_render_parse(text);
}

/// The candidate sets of a list of cells.
pub open spec fn grid_of(cells: Seq<Cell>) -> Grid {
    Seq::new(cells.len(), |i: int| cells[i]@)
}

/// Eighty-one well-formed cells, each at the place that its index names.
pub open spec fn cells_wf(cells: Seq<Cell>) -> bool {
    &&& cells.len() == 81
    &&& forall|i: int| 0 <= i < 81 ==> (#[trigger] cells[i]).wf() && cells[i].index == i
}

/// The board: the cell at place `i` has index `i`. A board may keep a
/// history: the snapshots of its cells that validated placements have left,
/// oldest first.
pub struct Board {
    pub cells: Vec<Cell>,
    pub history: Option<Vec<Vec<Cell>>>,
}

impl View for Board {
    type V = Grid;

    /// The candidate set of each cell.
    open spec fn view(&self) -> Grid {
        grid_of(self.cells@)
    }
}

impl Board {
    /// The cells are well formed, and so are the cells of every snapshot.
    pub open spec fn wf(&self) -> bool {
        &&& cells_wf(self.cells@)
        &&& self.history matches Some(taken) ==> forall|k: int|
            0 <= k < taken@.len() ==> cells_wf((#[trigger] taken@[k])@)
    }

    /// Whether the board keeps a history.
    pub open spec fn tracking(&self) -> bool {
        self.history.is_some()
    }

    /// The grids of the snapshots taken so far, oldest first; none where no
    /// history is kept.
    pub open spec fn snapshots(&self) -> Seq<Grid> {
        match self.history {
            Some(taken) => taken@.map_values(|cells: Vec<Cell>| grid_of(cells@)),
            None => Seq::empty(),
        }
    }

    /// What a well-formed board's grid says about its cells.
    pub proof fn lemma_view(&self)
        requires
            self.wf(),
        ensures
            crate::grid::grid_wf(self@),
            forall|i: int|
                0 <= i < 81 ==> is_solved(#[trigger] self@[i]) == (self.cells@[i].probabilities@.len()
                    == 1),
            forall|i: int|
                0 <= i < 81 ==> (#[trigger] self@[i]).len() == self.cells@[i].probabilities@.len(),
    {
        assert forall|i: int| 0 <= i < 81 implies (#[trigger] self@[i]).finite() && is_solved(
            self@[i],
        ) == (self.cells@[i].probabilities@.len() == 1) && self@[i].len()
            == self.cells@[i].probabilities@.len() by {
            self.cells@[i].lemma_view();
        }
    }

    /// Reads a puzzle: eighty-one digits in row-major order, `0` for a
    /// blank. Text of another length is turned down, and so is text of that
    /// length that holds anything but digits.
    pub fn from_string(string: &str) -> (board: Result<Board, InvalidInput>)
        ensures
            string@.len() != 81 ==> board matches Err(InvalidInput::WrongLength),
            string@.len() == 81 && !valid_puzzle(string@) ==> board matches Err(
                InvalidInput::NotADigit,
            ),
            valid_puzzle(string@) ==> board.is_ok() && board.unwrap().wf() && board.unwrap()@
                == parse(string@) && !board.unwrap().tracking(),
    {
        if string.unicode_len() != 81 {
            return Err(InvalidInput::WrongLength);
        }
        let mut cells: Vec<Cell> = Vec::new();
        let mut i: usize = 0;
        while i < 81
            invariant
                string@.len() == 81,
                i <= 81,
                cells@.len() == i,
                forall|j: int| 0 <= j < i ==> is_digit_char(#[trigger] string@[j]),
                forall|j: int|
                    0 <= j < i ==> (#[trigger] cells@[j]).wf() && cells@[j].index == j
                        && cells@[j]@ == parse_cell(string@[j]),
            decreases 81 - i,
        {
            let c = string.get_char(i);
            match parse_digit(c) {
                None => {
                    return Err(InvalidInput::NotADigit);
                },
                Some(digit) => {
                    match Cell::from_number(i, digit) {
                        Ok(cell) => {
                            cells.push(cell);
                        },
                        Err(e) => {
                            return Err(e);
                        },
                    }
                },
            }
            i += 1;
        }
        let board = Board { cells, history: None };
        assert(board@ =~= parse(string@));
        Ok(board)
    }

    /// A copy of the board, with its history.
    pub fn clone(&self) -> (copy: Board)
        ensures
            copy.cells@.len() == self.cells@.len(),
            forall|i: int|
                0 <= i < self.cells@.len() ==> same_cell(
                    &#[trigger] copy.cells@[i],
                    &self.cells@[i],
                ),
            copy@ == self@,
            copy.tracking() == self.tracking(),
            copy.snapshots() == self.snapshots(),
            self.wf() ==> copy.wf(),
    {
        let cells = copy_cells(&self.cells);
        let history = match &self.history {
            None => None,
            Some(taken) => {
                let mut copies: Vec<Vec<Cell>> = Vec::new();
                let mut k: usize = 0;
                while k < taken.len()
                    invariant
                        k <= taken@.len(),
                        copies@.len() == k,
                        forall|j: int|
                            0 <= j < k ==> grid_of((#[trigger] copies@[j])@) == grid_of(
                                taken@[j]@,
                            ) && (cells_wf(taken@[j]@) ==> cells_wf(copies@[j]@)),
                    decreases taken@.len() - k,
                {
                    copies.push(copy_cells(&taken[k]));
                    k += 1;
                }
                Some(copies)
            },
        };
        let copy = Board { cells, history };
        proof {
            assert(copy.snapshots() =~= self.snapshots());
        }
        copy
    }

    /// The board as text: eighty-one characters, `0` for each unsolved cell.
    pub fn to_string(&self) -> (text: String)
        requires
            self.wf(),
        ensures
            text@ == render(self@),
    {
        let mut text = String::new();
        let mut i: usize = 0;
        while i < 81
            invariant
                self.wf(),
                i <= 81,
                text@ == render(self@.take(i as int)),
            decreases 81 - i,
        {
            let value = self.cells[i].value();
            push_decimal(&mut text, value);
            proof {
                assert(self@.take(i + 1).drop_last() =~= self@.take(i as int));
            }
            i += 1;
        }
        assert(self@.take(81) =~= self@);
        text
    }

    /// The number of candidates left, over all cells: how far the board is
    /// from solved.
    pub fn uncertainty(&self) -> (total: usize)
        requires
            self.wf(),
        ensures
            total == total_candidates(self@),
    {
        let mut total: usize = 0;
        let mut i: usize = 0;
        while i < 81
            invariant
                self.wf(),
                i <= 81,
                total == total_candidates(self@.take(i as int)),
                total <= 256 * i,
            decreases 81 - i,
        {
            proof {
                lemma_increasing_set(self.cells@[i as int].probabilities@);
                assert(self@.take(i + 1).drop_last() =~= self@.take(i as int));
            }
            total = total + self.cells[i].probabilities.len();
            i += 1;
        }
        assert(self@.take(81) =~= self@);
        total
    }

    /// The unsolved cells, in index order.
    pub fn blanks(&self) -> (blanks: Vec<u8>)
        requires
            self.wf(),
        ensures
            blanks@ == unsolved(self@, all_cells()),
    {
        let mut blanks: Vec<u8> = Vec::new();
        let mut i: usize = 0;
        while i < 81
            invariant
                self.wf(),
                i <= 81,
                blanks@ == unsolved(self@, all_cells().take(i as int)),
            decreases 81 - i,
        {
            proof {
                let keep = |c: u8| !is_solved(self@[c as int]);
                assert(all_cells().take(i + 1) =~= all_cells().take(i as int).push(i as u8));
                all_cells().take(i as int).lemma_filter_push(i as u8, keep);
                self.lemma_view();
            }
            if !self.cells[i].solved() {
                blanks.push(i as u8);
            }
            i += 1;
        }
        assert(all_cells().take(81) =~= all_cells());
        blanks
    }

    /// The digit of a cell, `0` if it is unsolved.
    pub fn get(&self, index: u8) -> (value: u8)
        requires
            self.wf(),
            index <= 80,
        ensures
            value == value_of(self@[index as int]),
    {
        self.cells[index as usize].value()
    }

    /// Makes a digit the only candidate of a cell. Nothing is checked.
    fn set(&mut self, index: u8, solution: u8)
        requires
            old(self).wf(),
            index <= 80,
        ensures
            final(self).wf(),
            final(self)@ == old(self)@.update(index as int, set![solution]),
            final(self).history == old(self).history,
    {
        self.cells[index as usize].set(&solution);
        assert(self@ =~= old(self)@.update(index as int, set![solution]));
    }

    /// Puts a digit into a cell, unless a solved cell in the row, the column
    /// or the block of that cell has the digit already. Says whether the digit
    /// was put.
    pub fn try_set(&mut self, index: u8, solution: u8) -> (placed: bool)
        requires
            old(self).wf(),
            index <= 80,
        ensures
            final(self).wf(),
            placed == !taken(old(self)@, index as int, solution),
            placed ==> final(self)@ == old(self)@.update(index as int, set![solution]),
            !placed ==> final(self)@ == old(self)@,
            final(self).tracking() == old(self).tracking(),
            final(self).snapshots() == if placed && old(self).tracking() {
                old(self).snapshots().push(final(self)@)
            } else {
                old(self).snapshots()
            },
            crate::rules::units_distinct(old(self)@) ==> crate::rules::units_distinct(
                final(self)@,
            ),
    {
        if !self.validate(index, solution) {
            return false;
        }
        proof {
            self.lemma_view();
            if crate::rules::units_distinct(self@) {
                crate::rules::lemma_placing_keeps_distinct(self@, index as int, solution);
            }
        }
        self.set(index, solution);
        if self.history.is_some() {
            let snapshot = copy_cells(&self.cells);
            let ghost before = self.snapshots();
            let mut taken = self.history.take().unwrap();
            taken.push(snapshot);
            self.history = Some(taken);
            proof {
                assert(self.snapshots() =~= before.push(self@));
            }
        }
        true
    }

    /// Starts a history, if none is kept yet: from now on every validated
    /// placement leaves a snapshot.
    pub fn keep_history(&mut self)
        requires
            old(self).wf(),
        ensures
            final(self).wf(),
            final(self)@ == old(self)@,
            final(self).tracking(),
            final(self).snapshots() == old(self).snapshots(),
    {
        if self.history.is_none() {
            self.history = Some(Vec::new());
            assert(self.snapshots() =~= old(self).snapshots());
        }
    }

    /// Puts the cells back as a snapshot of the history has them. The
    /// history stays as it is.
    pub fn rollback(&mut self, history_index: usize)
        requires
            old(self).wf(),
            history_index < old(self).snapshots().len(),
        ensures
            final(self).wf(),
            final(self)@ == old(self).snapshots()[history_index as int],
            final(self).history == old(self).history,
    {
        let cells = match &self.history {
            Some(taken) => copy_cells(&taken[history_index]),
            None => copy_cells(&self.cells),
        };
        self.cells = cells;
    }

    /// Takes the given digits from each of the given cells. An index that
    /// names no cell of the board is passed over.
    pub fn remove_probabilities_from_cells(&mut self, indices: Vec<u8>, probabilities: Vec<u8>)
        requires
            old(self).wf(),
        ensures
            final(self).wf(),
            final(self).history == old(self).history,
            forall|i: int|
                0 <= i < 81 ==> (#[trigger] final(self)@[i]) == if indices@.contains(i as u8) {
                    old(self)@[i].difference(probabilities@.to_set())
                } else {
                    old(self)@[i]
                },
    {
        let mut k: usize = 0;
        while k < indices.len()
            invariant
                k <= indices@.len(),
                self.wf(),
                old(self).wf(),
                self.history == old(self).history,
                forall|i: int|
                    0 <= i < 81 ==> (#[trigger] self@[i]) == if indices@.take(k as int).contains(
                        i as u8,
                    ) {
                        old(self)@[i].difference(probabilities@.to_set())
                    } else {
                        old(self)@[i]
                    },
            decreases indices@.len() - k,
        {
            let index = indices[k];
            let ghost before = self@;
            if index <= 80 {
                let mut j: usize = 0;
                while j < probabilities.len()
                    invariant
                        j <= probabilities@.len(),
                        index <= 80,
                        self.wf(),
                        self.history == old(self).history,
                        before.len() == 81,
                        forall|i: int| 0 <= i < 81 && i != index ==> (#[trigger] self@[i]) == before[i],
                        self@[index as int] == before[index as int].difference(
                            probabilities@.take(j as int).to_set(),
                        ),
                    decreases probabilities@.len() - j,
                {
                    let ghost inner = self@;
                    self.cells[index as usize].remove(probabilities[j]);
                    proof {
                        let done = probabilities@.take(j as int);
                        assert(probabilities@.take(j + 1) =~= done.push(probabilities@[j as int]));
                        done.lemma_push_to_set_commute(probabilities@[j as int]);
                        assert(self@[index as int] =~= before[index as int].difference(
                            probabilities@.take(j + 1).to_set(),
                        ));
                        assert forall|i: int| 0 <= i < 81 && i != index implies #[trigger] self@[i]
                            == inner[i] by {}
                    }
                    j += 1;
                }
                assert(probabilities@.take(j as int) =~= probabilities@);
            }
            proof {
                let seen = indices@.take(k as int);
                let next = indices@.take(k + 1);
                assert(next =~= seen.push(index));
                assert forall|i: int| 0 <= i < 81 implies (#[trigger] self@[i]) == if next.contains(
                    i as u8,
                ) {
                    old(self)@[i].difference(probabilities@.to_set())
                } else {
                    old(self)@[i]
                } by {
                    assert(next.contains(i as u8) <==> seen.contains(i as u8) || index == i) by {
                        if seen.contains(i as u8) {
                            let q = choose|q: int| 0 <= q < seen.len() && seen[q] == i as u8;
                            assert(next[q] == i as u8);
                        }
                        if index == i {
                            assert(next[k as int] == index);
                        }
                        if next.contains(i as u8) && index != i {
                            let q = choose|q: int| 0 <= q < next.len() && next[q] == i as u8;
                            assert(seen[q] == i as u8);
                        }
                    }
                    if index == i {
                        assert(before[i].difference(probabilities@.to_set()).difference(
                            probabilities@.to_set(),
                        ) =~= before[i].difference(probabilities@.to_set()));
                    }
                }
            }
            k += 1;
        }
        assert(indices@.take(k as int) =~= indices@);
    }

    /// The row with the given number.
    pub fn row(&self, i: u8) -> (subset: Subset)
        requires
            self.wf(),
            i < 9,
        ensures
            subset.wf(),
            subset.mirrors(self, unit_cells(Orientation::Row, i as int)),
            subset@ == crate::grid::unit_view(self@, unit_cells(Orientation::Row, i as int)),
    {
        let subset = Subset::from_board(self, i, SubsetIndexToSubset::row);
        proof {
            lemma_unit_on_board(Orientation::Row, i as int);
            assert(subset.indices@ =~= unit_cells(Orientation::Row, i as int));
            subset.lemma_mirrors(self, unit_cells(Orientation::Row, i as int));
        }
        subset
    }

    /// The column with the given number.
    pub fn column(&self, i: u8) -> (subset: Subset)
        requires
            self.wf(),
            i < 9,
        ensures
            subset.wf(),
            subset.mirrors(self, unit_cells(Orientation::Column, i as int)),
            subset@ == crate::grid::unit_view(self@, unit_cells(Orientation::Column, i as int)),
    {
        let subset = Subset::from_board(self, i, SubsetIndexToSubset::column);
        proof {
            lemma_unit_on_board(Orientation::Column, i as int);
            assert(subset.indices@ =~= unit_cells(Orientation::Column, i as int));
            subset.lemma_mirrors(self, unit_cells(Orientation::Column, i as int));
        }
        subset
    }

    /// The block with the given number.
    pub fn block(&self, i: u8) -> (subset: Subset)
        requires
            self.wf(),
            i < 9,
        ensures
            subset.wf(),
            subset.mirrors(self, unit_cells(Orientation::Block, i as int)),
            subset@ == crate::grid::unit_view(self@, unit_cells(Orientation::Block, i as int)),
    {
        let subset = Subset::from_board(self, i, SubsetIndexToSubset::block);
        proof {
            lemma_unit_on_board(Orientation::Block, i as int);
            assert(subset.indices@ =~= unit_cells(Orientation::Block, i as int));
            subset.lemma_mirrors(self, unit_cells(Orientation::Block, i as int));
        }
        subset
    }

    /// The row that holds the given cell.
    pub fn row_from_index(&self, i: u8) -> (subset: Subset)
        requires
            self.wf(),
            i <= 80,
        ensures
            subset.wf(),
            subset.mirrors(
                self,
                unit_cells(Orientation::Row, unit_of(Orientation::Row, i as int)),
            ),
            subset@ == crate::grid::unit_view(
                self@,
                unit_cells(Orientation::Row, unit_of(Orientation::Row, i as int)),
            ),
    {
        let subset = Subset::from_board(self, i, BoardIndexFormulas::row);
        proof {
            let unit = unit_cells(Orientation::Row, unit_of(Orientation::Row, i as int));
            lemma_cell_in_unit(Orientation::Row, i as int);
            lemma_unit_on_board(Orientation::Row, unit_of(Orientation::Row, i as int));
            assert(subset.indices@ =~= unit);
            subset.lemma_mirrors(self, unit);
        }
        subset
    }

    /// The column that holds the given cell.
    pub fn column_from_index(&self, i: u8) -> (subset: Subset)
        requires
            self.wf(),
            i <= 80,
        ensures
            subset.wf(),
            subset.mirrors(
                self,
                unit_cells(Orientation::Column, unit_of(Orientation::Column, i as int)),
            ),
            subset@ == crate::grid::unit_view(
                self@,
                unit_cells(Orientation::Column, unit_of(Orientation::Column, i as int)),
            ),
    {
        let subset = Subset::from_board(self, i, BoardIndexFormulas::column);
        proof {
            let unit = unit_cells(Orientation::Column, unit_of(Orientation::Column, i as int));
            lemma_cell_in_unit(Orientation::Column, i as int);
            lemma_unit_on_board(Orientation::Column, unit_of(Orientation::Column, i as int));
            assert(subset.indices@ =~= unit);
            subset.lemma_mirrors(self, unit);
        }
        subset
    }

    /// The block that holds the given cell.
    pub fn block_from_index(&self, i: u8) -> (subset: Subset)
        requires
            self.wf(),
            i <= 80,
        ensures
            subset.wf(),
            subset.mirrors(
                self,
                unit_cells(Orientation::Block, unit_of(Orientation::Block, i as int)),
            ),
            subset@ == crate::grid::unit_view(
                self@,
                unit_cells(Orientation::Block, unit_of(Orientation::Block, i as int)),
            ),
    {
        let subset = Subset::from_board(self, i, BoardIndexFormulas::block);
        proof {
            let unit = unit_cells(Orientation::Block, unit_of(Orientation::Block, i as int));
            lemma_cell_in_unit(Orientation::Block, i as int);
            lemma_unit_on_board(Orientation::Block, unit_of(Orientation::Block, i as int));
            assert(subset.indices@ =~= unit);
            subset.lemma_mirrors(self, unit);
        }
        subset
    }

    /// Whether a digit may be put into a cell: no solved cell in its block,
    /// its row or its column has it.
    fn validate(&self, index: u8, solution: u8) -> (free: bool)
        requires
            self.wf(),
            index <= 80,
        ensures
            free == !taken(self@, index as int, solution),
    {
        !(self.block_from_index(index).contains(&solution) || self.row_from_index(index).contains(
            &solution,
        ) || self.column_from_index(index).contains(&solution))
    }

    /// Takes from each cell that the strategy names the digits it gives for
    /// that cell; a digit that is not there is passed over. Nothing is
    /// checked against the rules of the game.
    pub fn apply_strategy(&mut self, strategy: Strategy)
        requires
            old(self).wf(),
        ensures
            final(self).wf(),
            final(self)@ == without(old(self)@, strategy@),
            final(self).history == old(self).history,
    {
        self.apply_removal(&strategy);
    }

    /// Applies a strategy without using it up.
    pub fn apply_removal(&mut self, strategy: &Strategy)
        requires
            old(self).wf(),
        ensures
            final(self).wf(),
            final(self)@ == without(old(self)@, strategy@),
            final(self).history == old(self).history,
    {
        let mut i: usize = 0;
        while i < 81
            invariant
                i <= 81,
                self.wf(),
                old(self).wf(),
                self.history == old(self).history,
                forall|j: int|
                    0 <= j < i ==> (#[trigger] self@[j]) == old(self)@[j].difference(
                        crate::grid::removed_by(strategy@, j as u8),
                    ),
                forall|j: int| i <= j < 81 ==> (#[trigger] self@[j]) == old(self)@[j],
            decreases 81 - i,
        {
            let ghost before = self@;
            if let Some(digits) = strategy.removal_for(i as u8) {
                self.cells[i].remove_all(digits);
            }
            proof {
                assert(self@[i as int] =~= before[i as int].difference(
                    crate::grid::removed_by(strategy@, i as u8),
                ));
                assert forall|j: int| 0 <= j < 81 && j != i implies #[trigger] self@[j]
                    == before[j] by {}
            }
            i += 1;
        }
        assert(self@ =~= without(old(self)@, strategy@));
    }

    /// Whether every cell is solved.
    pub fn solved(&self) -> (solved: bool)
        requires
            self.wf(),
        ensures
            solved == forall|i: int| 0 <= i < 81 ==> is_solved(#[trigger] self@[i]),
    {
        proof {
            self.lemma_view();
        }
        let mut i: usize = 0;
        while i < 81
            invariant
                self.wf(),
                i <= 81,
                forall|j: int| 0 <= j < i ==> is_solved(#[trigger] self@[j]),
                forall|j: int|
                    0 <= j < 81 ==> is_solved(#[trigger] self@[j]) == (
                    self.cells@[j].probabilities@.len() == 1),
            decreases 81 - i,
        {
            if !self.cells[i].solved() {
                assert(!is_solved(self@[i as int]));
                return false;
            }
            i += 1;
        }
        true
    }
}

/// A copy of a list of cells.
pub fn copy_cells(cells: &Vec<Cell>) -> (copy: Vec<Cell>)
    ensures
        copy@.len() == cells@.len(),
        forall|i: int| 0 <= i < cells@.len() ==> same_cell(&#[trigger] copy@[i], &cells@[i]),
        grid_of(copy@) == grid_of(cells@),
        cells_wf(cells@) ==> cells_wf(copy@),
{
    let mut copy: Vec<Cell> = Vec::new();
    let mut i: usize = 0;
    while i < cells.len()
        invariant
            i <= cells@.len(),
            copy@.len() == i,
            forall|j: int| 0 <= j < i ==> same_cell(&#[trigger] copy@[j], &cells@[j]),
        decreases cells@.len() - i,
    {
        copy.push(cells[i].clone());
        i += 1;
    }
    assert(grid_of(copy@) =~= grid_of(cells@));
    copy
}

impl PartialEq for Board {
    /// Two boards are equal if they have the same cells: the same candidates
    /// at every place.
    fn eq(&self, other: &Self) -> (equal: bool) {
        if self.cells.len() != other.cells.len() {
            return false;
        }
        let mut i: usize = 0;
        while i < self.cells.len()
            invariant
                self.cells@.len() == other.cells@.len(),
                i <= self.cells@.len(),
                forall|j: int|
                    0 <= j < i ==> same_cell(
                        &#[trigger] self.cells@[j],
                        &other.cells@[j],
                    ),
            decreases self.cells@.len() - i,
        {
            if !(self.cells[i] == other.cells[i]) {
                return false;
            }
            i += 1;
        }
        true
    }
}

impl PartialEqSpecImpl for Board {
    open spec fn obeys_eq_spec() -> bool {
        true
    }

    open spec fn eq_spec(&self, other: &Self) -> bool {
        &&& self.cells@.len() == other.cells@.len()
        &&& forall|j: int|
            0 <= j < self.cells@.len() ==> same_cell(
                &#[trigger] self.cells@[j],
                &other.cells@[j],
            )
    }
}

} // verus!
