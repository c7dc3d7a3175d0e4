//! The deductive solvers: each looks at one unit at a time, says what its
//! rule lets one take away there, and leaves the board as it is until every
//! unit has been looked at.

pub mod box_line_reduction;
pub mod hidden;
pub mod last_remaining_cell;
pub mod naked;
pub mod pointing;
pub mod tools;

use crate::board::Board;
use crate::geometry::{unit_cells, Orientation};
use crate::grid::{removed_by, removed_by_all, without, without_all, Grid, Removal};
use crate::strategy::Strategy;
use crate::subset::Subset;
use vstd::prelude::*;

pub use box_line_reduction::BoxLineReduction;
pub use hidden::Hidden;
pub use last_remaining_cell::LastRemainingCell;
pub use naked::Naked;
pub use pointing::Pointing;

verus! {

/// The removals that a list of strategies stands for.
pub open spec fn removals_of(strategies: Seq<Strategy>) -> Seq<Removal> {
    strategies.map_values(|s: Strategy| s@)
}

/// Every strategy of the list has the given name.
pub open spec fn all_named(strategies: Seq<Strategy>, label: Seq<char>) -> bool {
    forall|j: int| 0 <= j < strategies.len() ==> (#[trigger] strategies[j]).label() == label
}

/// A rule of deduction, as mathematics: what it is called, which kinds of
/// unit it looks at, and what it lets one take away in a unit.
pub trait Rule: Sized {
    /// The name that the rule gives its strategies.
    spec fn label() -> Seq<char>;

    /// The kinds of unit that the rule looks at, in the order of a pass.
    spec fn sweeps() -> Seq<Orientation>;

    /// What the rule takes away in unit `u` of kind `o`: one removal for each
    /// deduction, in the order in which they are made.
    spec fn deduce(g: Grid, o: Orientation, u: int) -> Seq<Removal>;
}

/// What a rule gives for the units `0` to `n - 1` of one kind, unit after
/// unit.
pub open spec fn deduce_units<R: Rule>(g: Grid, o: Orientation, n: int) -> Seq<Removal>
    decreases n,
{
    if n <= 0 {
        Seq::empty()
    } else {
        deduce_units::<R>(g, o, n - 1) + R::deduce(g, o, n - 1)
    }
}

/// What a rule gives for all units of the given kinds, kind after kind.
pub open spec fn deduce_all<R: Rule>(g: Grid, kinds: Seq<Orientation>) -> Seq<Removal>
    decreases kinds.len(),
{
    if kinds.len() == 0 {
        Seq::empty()
    } else {
        deduce_all::<R>(g, kinds.drop_last()) + deduce_units::<R>(g, kinds.last(), 9)
    }
}

/// Everything that one pass of a rule deduces from a grid.
pub open spec fn pass<R: Rule>(g: Grid) -> Seq<Removal> {
    deduce_all::<R>(g, R::sweeps())
}

/// Taking one more removal from a grid that a batch was taken from is taking
/// the longer batch.
pub proof fn lemma_without_push(g: Grid, batch: Seq<Removal>, r: Removal)
    ensures
        without(without_all(g, batch), r) == without_all(g, batch.push(r)),
{
    let longer = batch.push(r);
    assert forall|i: int| 0 <= i < g.len() implies without(without_all(g, batch), r)[i]
        == without_all(g, longer)[i] by {
        let c = i as u8;
        assert forall|v: u8|
            removed_by_all(longer, c).contains(v) <==> (removed_by_all(batch, c).contains(v)
                || removed_by(r, c).contains(v)) by {
            if removed_by_all(batch, c).contains(v) {
                let j = choose|j: int|
                    0 <= j < batch.len() && removed_by(#[trigger] batch[j], c).contains(v);
                assert(longer[j] == batch[j]);
            }
            if removed_by(r, c).contains(v) {
                assert(longer[batch.len() as int] == r);
            }
            if removed_by_all(longer, c).contains(v) {
                let j = choose|j: int|
                    0 <= j < longer.len() && removed_by(#[trigger] longer[j], c).contains(v);
                if j < batch.len() {
                    assert(longer[j] == batch[j]);
                }
            }
        }
        assert(g[i].difference(removed_by_all(batch, c)).difference(removed_by(r, c))
            =~= g[i].difference(removed_by_all(longer, c)));
    }
    assert(without(without_all(g, batch), r) =~= without_all(g, longer));
}

/// The order of a batch does not matter, nor how often a removal occurs in
/// it: two batches with the same removals leave the same grid.
pub proof fn lemma_order_does_not_matter(g: Grid, a: Seq<Removal>, b: Seq<Removal>)
    requires
        forall|r: Removal| a.contains(r) <==> b.contains(r),
    ensures
        without_all(g, a) == without_all(g, b),
{
    assert forall|i: int| 0 <= i < g.len() implies without_all(g, a)[i] == without_all(g, b)[i] by {
        let c = i as u8;
        assert forall|v: u8| removed_by_all(a, c).contains(v) <==> removed_by_all(b, c).contains(
            v,
        ) by {
            if removed_by_all(a, c).contains(v) {
                let j = choose|j: int| 0 <= j < a.len() && removed_by(#[trigger] a[j], c).contains(v);
                assert(a.contains(a[j]));
                let k = choose|k: int| 0 <= k < b.len() && b[k] == a[j];
                assert(removed_by(b[k], c).contains(v));
            }
            if removed_by_all(b, c).contains(v) {
                let j = choose|j: int| 0 <= j < b.len() && removed_by(#[trigger] b[j], c).contains(v);
                assert(b.contains(b[j]));
                let k = choose|k: int| 0 <= k < a.len() && a[k] == b[j];
                assert(removed_by(a[k], c).contains(v));
            }
        }
        assert(removed_by_all(a, c) =~= removed_by_all(b, c));
    }
    assert(without_all(g, a) =~= without_all(g, b));
}

/// A removal that has been applied can be applied again without effect:
/// what is not there is passed over.
pub proof fn lemma_removal_twice(g: Grid, r: Removal)
    ensures
        without(without(g, r), r) == without(g, r),
{
    assert forall|i: int| 0 <= i < g.len() implies without(without(g, r), r)[i] == without(g, r)[i] by {
        assert(g[i].difference(removed_by(r, i as u8)).difference(removed_by(r, i as u8))
            =~= g[i].difference(removed_by(r, i as u8)));
    }
    assert(without(without(g, r), r) =~= without(g, r));
}

/// Taking nothing leaves the grid as it is.
pub proof fn lemma_without_nothing(g: Grid)
    ensures
        without_all(g, Seq::empty()) == g,
{
    assert forall|i: int| 0 <= i < g.len() implies without_all(g, Seq::empty())[i] == g[i] by {
        assert(g[i].difference(removed_by_all(Seq::empty(), i as u8)) =~= g[i]);
    }
    assert(without_all(g, Seq::empty()) =~= g);
}

/// What a batch made of two batches takes from a cell is what either takes.
pub proof fn lemma_removed_by_concat(a: Seq<Removal>, b: Seq<Removal>, i: u8, v: u8)
    ensures
        removed_by_all(a + b, i).contains(v) == (removed_by_all(a, i).contains(v)
            || removed_by_all(b, i).contains(v)),
{
    let both = a + b;
    if removed_by_all(a, i).contains(v) {
        let j = choose|j: int| 0 <= j < a.len() && removed_by(#[trigger] a[j], i).contains(v);
        assert(both[j] == a[j]);
    }
    if removed_by_all(b, i).contains(v) {
        let j = choose|j: int| 0 <= j < b.len() && removed_by(#[trigger] b[j], i).contains(v);
        assert(both[a.len() + j] == b[j]);
    }
    if removed_by_all(both, i).contains(v) {
        let j = choose|j: int|
            0 <= j < both.len() && removed_by(#[trigger] both[j], i).contains(v);
        if j < a.len() {
            assert(both[j] == a[j]);
        } else {
            assert(both[j] == b[j - a.len()]);
        }
    }
}

/// What the removals made for the kept items of a sequence take from a cell
/// is what the removal of one kept item takes.
pub proof fn lemma_filter_map_removes<A>(
    s: Seq<A>,
    keep: spec_fn(A) -> bool,
    f: spec_fn(A) -> Removal,
    i: u8,
    v: u8,
)
    ensures
        removed_by_all(s.filter(keep).map_values(f), i).contains(v) == (exists|j: int|
            0 <= j < s.len() && keep(#[trigger] s[j]) && removed_by(f(s[j]), i).contains(v)),
{
    let kept = s.filter(keep);
    let batch = kept.map_values(f);
    if removed_by_all(batch, i).contains(v) {
        let j = choose|j: int| 0 <= j < batch.len() && removed_by(#[trigger] batch[j], i).contains(v);
        assert(batch[j] == f(kept[j]));
        s.lemma_filter_pred(keep, j);
        assert(kept.contains(kept[j]));
        s.lemma_filter_contains_rev(keep, kept[j]);
        let q = choose|q: int| 0 <= q < s.len() && s[q] == kept[j];
        assert(keep(s[q]) && removed_by(f(s[q]), i).contains(v));
    }
    if exists|j: int|
        0 <= j < s.len() && keep(#[trigger] s[j]) && removed_by(f(s[j]), i).contains(v) {
        let j = choose|j: int|
            0 <= j < s.len() && keep(#[trigger] s[j]) && removed_by(f(s[j]), i).contains(v);
        s.lemma_filter_contains(keep, j);
        let q = choose|q: int| 0 <= q < kept.len() && kept[q] == s[j];
        assert(batch[q] == f(s[j]));
        assert(removed_by(batch[q], i).contains(v));
    }
}

/// Whether a rule takes the digit from the cell in one of the first `n`
/// units of one kind.
pub open spec fn units_remove<R: Rule>(g: Grid, o: Orientation, n: int, i: u8, v: u8) -> bool {
    exists|u: int| 0 <= u < n && removed_by_all(#[trigger] R::deduce(g, o, u), i).contains(v)
}

/// Whether one pass of a rule takes the digit from the cell: whether the
/// rule does so in some unit of a kind that it looks at.
pub open spec fn pass_removes<R: Rule>(g: Grid, i: u8, v: u8) -> bool {
    exists|k: int|
        0 <= k < R::sweeps().len() && units_remove::<R>(g, #[trigger] R::sweeps()[k], 9, i, v)
}

/// What a rule takes from a cell over the units of one kind is what it takes
/// in one of them.
pub proof fn lemma_units_remove<R: Rule>(g: Grid, o: Orientation, n: int, i: u8, v: u8)
    ensures
        removed_by_all(deduce_units::<R>(g, o, n), i).contains(v) == units_remove::<R>(
            g,
            o,
            n,
            i,
            v,
        ),
    decreases n,
{
    if n <= 0 {
        assert(!removed_by_all(deduce_units::<R>(g, o, n), i).contains(v));
    } else {
        lemma_units_remove::<R>(g, o, n - 1, i, v);
        lemma_removed_by_concat(deduce_units::<R>(g, o, n - 1), R::deduce(g, o, n - 1), i, v);
        if units_remove::<R>(g, o, n - 1, i, v) {
            let u = choose|u: int|
                0 <= u < n - 1 && removed_by_all(#[trigger] R::deduce(g, o, u), i).contains(v);
            assert(0 <= u < n && removed_by_all(R::deduce(g, o, u), i).contains(v));
        }
        if units_remove::<R>(g, o, n, i, v) {
            let u = choose|u: int|
                0 <= u < n && removed_by_all(#[trigger] R::deduce(g, o, u), i).contains(v);
            if u < n - 1 {
                assert(units_remove::<R>(g, o, n - 1, i, v));
            }
        }
    }
}

/// What a rule takes from a cell over some kinds of unit is what it takes
/// over one of the kinds.
pub proof fn lemma_kinds_remove<R: Rule>(g: Grid, kinds: Seq<Orientation>, i: u8, v: u8)
    ensures
        removed_by_all(deduce_all::<R>(g, kinds), i).contains(v) == (exists|k: int|
            0 <= k < kinds.len() && units_remove::<R>(g, #[trigger] kinds[k], 9, i, v)),
    decreases kinds.len(),
{
    if kinds.len() == 0 {
        assert(!removed_by_all(deduce_all::<R>(g, kinds), i).contains(v));
    } else {
        let front = kinds.drop_last();
        lemma_kinds_remove::<R>(g, front, i, v);
        lemma_units_remove::<R>(g, kinds.last(), 9, i, v);
        lemma_removed_by_concat(
            deduce_all::<R>(g, front),
            deduce_units::<R>(g, kinds.last(), 9),
            i,
            v,
        );
        if exists|k: int| 0 <= k < front.len() && units_remove::<R>(g, #[trigger] front[k], 9, i, v) {
            let k = choose|k: int|
                0 <= k < front.len() && units_remove::<R>(g, #[trigger] front[k], 9, i, v);
            assert(kinds[k] == front[k]);
        }
        if units_remove::<R>(g, kinds.last(), 9, i, v) {
            assert(kinds[kinds.len() - 1] == kinds.last());
        }
        if exists|k: int| 0 <= k < kinds.len() && units_remove::<R>(g, #[trigger] kinds[k], 9, i, v) {
            let k = choose|k: int|
                0 <= k < kinds.len() && units_remove::<R>(g, #[trigger] kinds[k], 9, i, v);
            if k < front.len() {
                assert(front[k] == kinds[k]);
            }
        }
    }
}

/// One pass of a rule takes a digit from a cell just when the rule takes it
/// there in some unit that the pass looks at.
pub proof fn lemma_pass_removes<R: Rule>(g: Grid, i: u8, v: u8)
    ensures
        removed_by_all(pass::<R>(g), i).contains(v) == pass_removes::<R>(g, i, v),
{
    lemma_kinds_remove::<R>(g, R::sweeps(), i, v);
}

/// A pass of a rule that, in no unit, takes from a cell the digit that a
/// solved Sudoku has there leaves a grid that allows that Sudoku.
pub proof fn lemma_sound_pass<R: Rule>(g: Grid, s: Seq<u8>)
    requires
        g.len() == 81,
        crate::rules::allows(g, s),
        forall|k: int, u: int, i: int|
            0 <= k < R::sweeps().len() && 0 <= u < 9 && 0 <= i < 81 ==> !(#[trigger] removed_by_all(
                R::deduce(g, R::sweeps()[k], u),
                i as u8,
            )).contains(s[i]),
    ensures
        crate::rules::allows(without_all(g, pass::<R>(g)), s),
{
    assert forall|i: int| 0 <= i < 81 implies (#[trigger] without_all(g, pass::<R>(g))[i]).contains(
        s[i],
    ) by {
        lemma_pass_removes::<R>(g, i as u8, s[i]);
        if pass_removes::<R>(g, i as u8, s[i]) {
            let k = choose|k: int|
                0 <= k < R::sweeps().len() && units_remove::<R>(
                    g,
                    #[trigger] R::sweeps()[k],
                    9,
                    i as u8,
                    s[i],
                );
            let u = choose|u: int|
                0 <= u < 9 && removed_by_all(
                    #[trigger] R::deduce(g, R::sweeps()[k], u),
                    i as u8,
                ).contains(s[i]);
            assert(!removed_by_all(R::deduce(g, R::sweeps()[k], u), i as u8).contains(s[i]));
        }
        assert(g[i].contains(s[i]));
    }
}

/// Taking candidates away keeps a grid well formed, and keeps its
/// candidates digits where they were digits.
pub proof fn lemma_without_all_wf(g: Grid, batch: Seq<Removal>)
    requires
        crate::grid::grid_wf(g),
    ensures
        crate::grid::grid_wf(without_all(g, batch)),
        crate::rules::digits_only(g) ==> crate::rules::digits_only(without_all(g, batch)),
{
    let after = without_all(g, batch);
    assert forall|i: int| 0 <= i < 81 implies (#[trigger] after[i]).finite() by {
        assert(after[i].subset_of(g[i]));
        vstd::set_lib::lemma_len_subset(after[i], g[i]);
    }
    if crate::rules::digits_only(g) {
        assert forall|i: int, v: u8| 0 <= i < 81 && #[trigger] after[i].contains(v) implies 1 <= v
            <= 9 by {
            assert(g[i].contains(v));
        }
    }
}

/// The unit distinctness invariant under deduction: on a grid of digits
/// that allows a solved Sudoku, a pass of any of the five solvers leaves a
/// grid that still allows it, and so one on which no two solved cells of a
/// row, a column or a block have the same digit.
pub proof fn lemma_deduction_keeps_distinct(g: Grid, s: Seq<u8>)
    requires
        crate::grid::grid_wf(g),
        crate::rules::digits_only(g),
        crate::rules::is_complete(s),
        crate::rules::allows(g, s),
    ensures
        crate::rules::units_distinct(g),
        crate::rules::allows(without_all(g, pass::<LastRemainingCell>(g)), s),
        crate::rules::units_distinct(without_all(g, pass::<LastRemainingCell>(g))),
        crate::rules::allows(without_all(g, pass::<Naked>(g)), s),
        crate::rules::units_distinct(without_all(g, pass::<Naked>(g))),
        crate::rules::allows(without_all(g, pass::<Hidden>(g)), s),
        crate::rules::units_distinct(without_all(g, pass::<Hidden>(g))),
        crate::rules::allows(without_all(g, pass::<Pointing>(g)), s),
        crate::rules::units_distinct(without_all(g, pass::<Pointing>(g))),
        crate::rules::allows(without_all(g, pass::<BoxLineReduction>(g)), s),
        crate::rules::units_distinct(without_all(g, pass::<BoxLineReduction>(g))),
{
    crate::rules::lemma_allows_distinct(g, s);
    last_remaining_cell::lemma_last_remaining_sound(g, s);
    lemma_without_all_wf(g, pass::<LastRemainingCell>(g));
    crate::rules::lemma_allows_distinct(without_all(g, pass::<LastRemainingCell>(g)), s);
    naked::lemma_naked_sound(g, s);
    lemma_without_all_wf(g, pass::<Naked>(g));
    crate::rules::lemma_allows_distinct(without_all(g, pass::<Naked>(g)), s);
    hidden::lemma_hidden_sound(g, s);
    lemma_without_all_wf(g, pass::<Hidden>(g));
    crate::rules::lemma_allows_distinct(without_all(g, pass::<Hidden>(g)), s);
    pointing::lemma_pointing_sound(g, s);
    lemma_without_all_wf(g, pass::<Pointing>(g));
    crate::rules::lemma_allows_distinct(without_all(g, pass::<Pointing>(g)), s);
    box_line_reduction::lemma_box_line_sound(g, s);
    lemma_without_all_wf(g, pass::<BoxLineReduction>(g));
    crate::rules::lemma_allows_distinct(without_all(g, pass::<BoxLineReduction>(g)), s);
}

/// A deductive solver: a rule that can be run on a board.
pub trait SolveProbabilities: Rule {
    /// The name that the solver gives its strategies.
    fn name() -> (name: String)
        ensures
            name@ == Self::label(),
    ;

    /// The kinds of unit that the solver looks at.
    fn orientations() -> (kinds: Vec<Orientation>)
        ensures
            kinds@ == Self::sweeps(),
    ;

    /// The solver's deductions for one unit, from the board as it is: the
    /// board is only read.
    fn logic(board: &Board, orientation: &Orientation, index: u8) -> (strategies: Vec<Strategy>)
        requires
            board.wf(),
            index < 9,
            Self::sweeps().contains(*orientation),
        ensures
            removals_of(strategies@) == Self::deduce(board@, *orientation, index as int),
            all_named(strategies@, Self::label()),
    ;

    /// One pass: every deduction is made from the board as it was given, and
    /// only then are they all applied.
    fn get_and_apply_strategies(board: Board) -> (after: Board)
        requires
            board.wf(),
        ensures
            after.wf(),
            after@ == without_all(board@, pass::<Self>(board@)),
            after.history == board.history,
    {
        let strategies: Vec<Strategy> = Self::get_strategies(&board);
        Self::apply_strategies(board, strategies)
    }

    /// The deductions of one pass: for each kind of unit that the solver
    /// looks at, for each of the nine units of that kind.
    fn get_strategies(board: &Board) -> (strategies: Vec<Strategy>)
        requires
            board.wf(),
        ensures
            removals_of(strategies@) == pass::<Self>(board@),
            all_named(strategies@, Self::label()),
    {
        let mut strategies: Vec<Strategy> = Vec::new();
        let kinds = Self::orientations();
        let mut a: usize = 0;
        assert(removals_of(strategies@) =~= deduce_all::<Self>(board@, kinds@.take(0)));
        while a < kinds.len()
            invariant
                board.wf(),
                a <= kinds@.len(),
                kinds@ == Self::sweeps(),
                removals_of(strategies@) == deduce_all::<Self>(board@, kinds@.take(a as int)),
                all_named(strategies@, Self::label()),
            decreases kinds@.len() - a,
        {
            let orientation = kinds[a];
            let mut i: u8 = 0;
            let ghost done = removals_of(strategies@);
            assert(removals_of(strategies@) =~= done + deduce_units::<Self>(board@, orientation, 0));
            while i < 9
                invariant
                    board.wf(),
                    i <= 9,
                    Self::sweeps().contains(orientation),
                        removals_of(strategies@) == done + deduce_units::<Self>(
                        board@,
                        orientation,
                        i as int,
                    ),
                    all_named(strategies@, Self::label()),
                decreases 9 - i,
            {
                let mut found = Self::logic(board, &orientation, i);
                let ghost before = strategies@;
                let ghost added = found@;
                strategies.append(&mut found);
                proof {
                    assert(strategies@ == before + added);
                    assert(removals_of(before + added) =~= removals_of(before) + removals_of(
                        added,
                    ));
                    let so_far = deduce_units::<Self>(board@, orientation, i as int);
                    let here = Self::deduce(board@, orientation, i as int);
                    assert(done + so_far + here =~= done + (so_far + here));
                }
                i += 1;
            }
            proof {
                assert(kinds@.take(a + 1).drop_last() =~= kinds@.take(a as int));
            }
            a += 1;
        }
        assert(kinds@.take(a as int) =~= kinds@);
        strategies
    }

    /// Applies a batch of strategies: set subtraction, cell by cell, so that
    /// their order does not matter.
    fn apply_strategies(board: Board, strategies: Vec<Strategy>) -> (after: Board)
        requires
            board.wf(),
        ensures
            after.wf(),
            after@ == without_all(board@, removals_of(strategies@)),
            after.history == board.history,
    {
        let ghost kept = board.history;
        let mut board = board;
        let ghost start = board@;
        let mut k: usize = 0;
        proof {
            lemma_without_nothing(start);
            assert(removals_of(strategies@).take(0) =~= Seq::empty());
        }
        while k < strategies.len()
            invariant
                k <= strategies@.len(),
                board.wf(),
                board.history == kept,
                board@ == without_all(start, removals_of(strategies@).take(k as int)),
            decreases strategies@.len() - k,
        {
            proof {
                let batch = removals_of(strategies@);
                lemma_without_push(start, batch.take(k as int), batch[k as int]);
                assert(batch.take(k + 1) =~= batch.take(k as int).push(batch[k as int]));
            }
            board.apply_removal(&strategies[k]);
            k += 1;
        }
        assert(removals_of(strategies@).take(k as int) =~= removals_of(strategies@));
        board
    }

    /// The unit of the given kind and number, copied from the board.
    fn create_subset(board: &Board, orientation: &Orientation, index: u8) -> (subset: Subset)
        requires
            board.wf(),
            index < 9,
        ensures
            subset.wf(),
            subset.mirrors(board, unit_cells(*orientation, index as int)),
            subset@ == crate::grid::unit_view(board@, unit_cells(*orientation, index as int)),
    {
        match orientation {
            Orientation::Row => board.row(index),
            Orientation::Column => board.column(index),
            Orientation::Block => board.block(index),
        }
    }
}

} // verus!
