//! A unit of the board, copied out: the nine cells of one row, column or
//! block.

use crate::board::Board;
use crate::cell::{all_digits, is_solved, value_of, Cell};
use crate::combinatorics::{contains_value, distinct, lemma_distinct};
use crate::grid::{on_board, solved_values_of, unit_view, unsolved_positions};
use std::collections::HashSet;
use vstd::prelude::*;

verus! {

broadcast use {vstd::std_specs::hash::group_hash_axioms, vstd::array::group_array_axioms};

/// The digits of the solved candidate sets among `sets`, in order, one for
/// each solved set.
pub open spec fn solved_list(sets: Seq<Set<u8>>) -> Seq<u8> {
    sets.filter(|c: Set<u8>| is_solved(c)).map_values(|c: Set<u8>| value_of(c))
}

/// Nine cells of a board, as they were when the subset was taken.
pub struct Subset {
    pub indices: [u8; 9],
    pub cells: [Cell; 9],
}

impl View for Subset {
    type V = Seq<Set<u8>>;

    /// The candidate sets of the nine cells, in position order.
    open spec fn view(&self) -> Seq<Set<u8>> {
        Seq::new(9, |p: int| self.cells@[p]@)
    }
}

impl Subset {
    /// Each cell is well formed and has the index listed at its position.
    pub open spec fn wf(&self) -> bool {
        forall|p: int|
            0 <= p < 9 ==> (#[trigger] self.cells@[p]).wf() && self.cells@[p].index
                == self.indices@[p]
    }

    /// The subset holds the cells `unit` of `board`, as they are now.
    pub open spec fn mirrors(&self, board: &Board, unit: Seq<u8>) -> bool {
        &&& self.indices@ == unit
        &&& forall|p: int|
            0 <= p < 9 ==> (#[trigger] self.cells@[p]).index == unit[p]
                && self.cells@[p].probabilities@ == board.cells@[unit[p] as int].probabilities@
    }

    /// A subset that mirrors cells of a board shows that board's candidates.
    pub proof fn lemma_mirrors(&self, board: &Board, unit: Seq<u8>)
        requires
            board.wf(),
            on_board(unit),
            self.mirrors(board, unit),
        ensures
            unit.len() == 9,
            self.wf(),
            self@ == unit_view(board@, unit),
    {
        assert(self.indices@.len() == 9);
        assert forall|p: int| 0 <= p < 9 implies (#[trigger] self.cells@[p])@ == board@[unit[p] as int] by {
            assert(self.cells@[p].probabilities@ == board.cells@[unit[p] as int].probabilities@);
        }
        assert(self@ =~= unit_view(board@, unit));
    }

    /// What a well-formed subset's candidate sets say about its cells.
    pub proof fn lemma_view(&self)
        requires
            self.wf(),
        ensures
            forall|p: int|
                0 <= p < 9 ==> (#[trigger] self@[p]).finite() && is_solved(self@[p]) == (
                self.cells@[p].probabilities@.len() == 1) && (is_solved(self@[p]) ==> value_of(
                    self@[p],
                ) == self.cells@[p].probabilities@[0] && self@[p] == set![value_of(self@[p])]),
    {
        assert forall|p: int| 0 <= p < 9 implies (#[trigger] self@[p]).finite() && is_solved(
            self@[p],
        ) == (self.cells@[p].probabilities@.len() == 1) && (is_solved(self@[p]) ==> value_of(
            self@[p],
        ) == self.cells@[p].probabilities@[0] && self@[p] == set![value_of(self@[p])]) by {
            self.cells@[p].lemma_view();
        }
    }

    /// The nine cells that `func` names for `i` and the positions `0` to `8`,
    /// copied from the board.
    pub(crate) fn from_board<F: Fn(u8, u8) -> u8>(board: &Board, i: u8, func: F) -> (subset: Subset)
        requires
            board.wf(),
            forall|x: u8| x < 9 ==> call_requires(func, (i, x)),
            forall|x: u8, c: u8| x < 9 && call_ensures(func, (i, x), c) ==> c <= 80,
        ensures
            subset.wf(),
            forall|p: int|
                0 <= p < 9 ==> call_ensures(func, (i, p as u8), #[trigger] subset.indices@[p]),
            subset.mirrors(board, subset.indices@),
    {
        let c0 = func(i, 0);
        let c1 = func(i, 1);
        let c2 = func(i, 2);
        let c3 = func(i, 3);
        let c4 = func(i, 4);
        let c5 = func(i, 5);
        let c6 = func(i, 6);
        let c7 = func(i, 7);
        let c8 = func(i, 8);
        Subset {
            indices: [c0, c1, c2, c3, c4, c5, c6, c7, c8],
            cells: [
                board.cells[c0 as usize].clone(),
                board.cells[c1 as usize].clone(),
                board.cells[c2 as usize].clone(),
                board.cells[c3 as usize].clone(),
                board.cells[c4 as usize].clone(),
                board.cells[c5 as usize].clone(),
                board.cells[c6 as usize].clone(),
                board.cells[c7 as usize].clone(),
                board.cells[c8 as usize].clone(),
            ],
        }
    }

    /// Whether every cell of the unit is solved.
    pub fn is_solved(&self) -> (solved: bool)
        requires
            self.wf(),
        ensures
            solved == forall|p: int| 0 <= p < 9 ==> is_solved(#[trigger] self@[p]),
    {
        proof {
            self.lemma_view();
        }
        let mut p: usize = 0;
        while p < 9
            invariant
                self.wf(),
                p <= 9,
                forall|q: int| 0 <= q < p ==> is_solved(#[trigger] self@[q]),
                forall|q: int|
                    0 <= q < 9 ==> is_solved(#[trigger] self@[q]) == (
                    self.cells@[q].probabilities@.len() == 1),
            decreases 9 - p,
        {
            if !self.cells[p].solved() {
                assert(!is_solved(self@[p as int]));
                return false;
            }
            p += 1;
        }
        true
    }

    /// Whether some solved cell of the unit has the digit.
    pub fn contains(&self, value: &u8) -> (found: bool)
        requires
            self.wf(),
        ensures
            found == solved_values_of(self@).contains(*value),
    {
        proof {
            self.lemma_view();
        }
        let mut p: usize = 0;
        while p < 9
            invariant
                self.wf(),
                p <= 9,
                forall|q: int|
                    0 <= q < p ==> !(is_solved(#[trigger] self@[q]) && self@[q].contains(*value)),
                forall|q: int|
                    0 <= q < 9 ==> (#[trigger] self@[q]).finite() && is_solved(self@[q]) == (
                    self.cells@[q].probabilities@.len() == 1) && (is_solved(self@[q])
                        ==> value_of(self@[q]) == self.cells@[q].probabilities@[0] && self@[q]
                        == set![value_of(self@[q])]),
            decreases 9 - p,
        {
            if self.cells[p].solved() && self.cells[p].value() == *value {
                assert(is_solved(self@[p as int]) && self@[p as int].contains(*value));
                return true;
            }
            p += 1;
        }
        false
    }

    /// Copies of the unsolved cells, in position order.
    pub fn missing(&self) -> (missing: Vec<Cell>)
        requires
            self.wf(),
        ensures
            missing@.len() == unsolved_positions(self@).len(),
            forall|j: int|
                0 <= j < missing@.len() ==> (#[trigger] missing@[j]).index
                    == self.cells@[unsolved_positions(self@)[j]].index,
            forall|j: int|
                0 <= j < missing@.len() ==> (#[trigger] missing@[j]).probabilities@
                    == self.cells@[unsolved_positions(self@)[j]].probabilities@,
    {
        let ghost places = Seq::new(9, |p: int| p);
        let ghost keep = |p: int| !is_solved(self@[p]);
        let ghost kept: Seq<int> = Seq::empty();
        proof {
            self.lemma_view();
            assert(places.take(0).filter(keep) =~= kept) by {
                reveal(Seq::filter);
            }
        }
        let mut missing: Vec<Cell> = Vec::new();
        let mut p: usize = 0;
        while p < 9
            invariant
                self.wf(),
                p <= 9,
                places == Seq::new(9, |p: int| p),
                keep == |p: int| !is_solved(self@[p]),
                kept == places.take(p as int).filter(keep),
                missing@.len() == kept.len(),
                forall|j: int| 0 <= j < kept.len() ==> 0 <= #[trigger] kept[j] < 9,
                forall|j: int|
                    0 <= j < missing@.len() ==> (#[trigger] missing@[j]).index
                        == self.cells@[kept[j]].index,
                forall|j: int|
                    0 <= j < missing@.len() ==> (#[trigger] missing@[j]).probabilities@
                        == self.cells@[kept[j]].probabilities@,
                forall|q: int|
                    0 <= q < 9 ==> is_solved(#[trigger] self@[q]) == (
                    self.cells@[q].probabilities@.len() == 1),
            decreases 9 - p,
        {
            proof {
                assert(places.take(p + 1) =~= places.take(p as int).push(p as int));
                places.take(p as int).lemma_filter_push(p as int, keep);
            }
            if !self.cells[p].solved() {
                missing.push(self.cells[p].clone());
                proof {
                    kept = kept.push(p as int);
                }
            }
            p += 1;
        }
        assert(places.take(9) =~= places);
        assert(self@.len() == 9);
        missing
    }

    /// The indices of the unsolved cells, in position order.
    pub fn indices_missing(&self) -> (missing: Vec<u8>)
        requires
            self.wf(),
        ensures
            missing@ == unsolved_positions(self@).map_values(|p: int| self.indices@[p]),
    {
        let ghost places = Seq::new(9, |p: int| p);
        let ghost keep = |p: int| !is_solved(self@[p]);
        let ghost at = |p: int| self.indices@[p];
        proof {
            self.lemma_view();
        }
        let mut missing: Vec<u8> = Vec::new();
        let mut p: usize = 0;
        while p < 9
            invariant
                self.wf(),
                p <= 9,
                places == Seq::new(9, |p: int| p),
                keep == |p: int| !is_solved(self@[p]),
                at == |p: int| self.indices@[p],
                missing@ == places.take(p as int).filter(keep).map_values(at),
                forall|q: int|
                    0 <= q < 9 ==> is_solved(#[trigger] self@[q]) == (
                    self.cells@[q].probabilities@.len() == 1),
            decreases 9 - p,
        {
            proof {
                let seen = places.take(p as int);
                assert(places.take(p + 1) =~= seen.push(p as int));
                seen.lemma_filter_push(p as int, keep);
                seen.filter(keep).lemma_push_map_commute(at, p as int);
            }
            if !self.cells[p].solved() {
                missing.push(self.cells[p].index);
            }
            p += 1;
        }
        assert(places.take(9) =~= places);
        assert(self@.len() == 9);
        missing
    }

    /// The digits that the solved cells of the unit have.
    pub fn values_solved(&self) -> (values: HashSet<u8>)
        requires
            self.wf(),
        ensures
            values@ == solved_values_of(self@),
            values@.finite(),
    {
        proof {
            self.lemma_view();
        }
        let mut values: HashSet<u8> = HashSet::new();
        let mut p: usize = 0;
        while p < 9
            invariant
                self.wf(),
                p <= 9,
                values@.finite(),
                forall|v: u8|
                    values@.contains(v) <==> exists|q: int|
                        0 <= q < p && is_solved(#[trigger] self@[q]) && self@[q].contains(v),
                forall|q: int|
                    0 <= q < 9 ==> (#[trigger] self@[q]).finite() && is_solved(self@[q]) == (
                    self.cells@[q].probabilities@.len() == 1) && (is_solved(self@[q])
                        ==> value_of(self@[q]) == self.cells@[q].probabilities@[0] && self@[q]
                        == set![value_of(self@[q])]),
            decreases 9 - p,
        {
            let ghost before = values@;
            if self.cells[p].solved() {
                values.insert(self.cells[p].value());
            }
            proof {
                assert forall|v: u8|
                    values@.contains(v) <==> exists|q: int|
                        0 <= q < p + 1 && is_solved(#[trigger] self@[q]) && self@[q].contains(
                            v,
                        ) by {
                    if before.contains(v) {
                        let q = choose|q: int|
                            0 <= q < p && is_solved(#[trigger] self@[q]) && self@[q].contains(v);
                        assert(0 <= q < p + 1 && is_solved(self@[q]) && self@[q].contains(v));
                    }
                    if is_solved(self@[p as int]) && self@[p as int].contains(v) {
                        assert(values@.contains(v));
                    }
                    if exists|q: int|
                        0 <= q < p + 1 && is_solved(#[trigger] self@[q]) && self@[q].contains(v) {
                        let q = choose|q: int|
                            0 <= q < p + 1 && is_solved(#[trigger] self@[q]) && self@[q].contains(
                                v,
                            );
                        if q < p {
                            assert(before.contains(v));
                        }
                    }
                }
            }
            p += 1;
        }
        assert(values@ =~= solved_values_of(self@));
        values
    }

    /// The digits `1` to `9` that no solved cell of the unit has: those that
    /// are still to be placed.
    pub fn values_missing(&self) -> (values: HashSet<u8>)
        requires
            self.wf(),
        ensures
            values@ == all_digits().difference(solved_values_of(self@)),
            values@.finite(),
    {
        let solved = self.values_solved();
        let mut values: HashSet<u8> = HashSet::new();
        let mut digit: u8 = 1;
        while digit <= 9
            invariant
                1 <= digit <= 10,
                values@.finite(),
                forall|v: u8| values@.contains(v) <==> 1 <= v < digit && !solved@.contains(v),
            decreases 10 - digit,
        {
            if !solved.contains(&digit) {
                values.insert(digit);
            }
            digit += 1;
        }
        assert(values@ =~= all_digits().difference(solved_values_of(self@)));
        values
    }

    /// The digits that are solved in this unit or in the other, each once:
    /// those of this unit in position order, then those of the other.
    pub fn union(&self, other: &Self) -> (values: Vec<u8>)
        requires
            self.wf(),
            other.wf(),
        ensures
            values@ == distinct(solved_list(self@) + solved_list(other@)),
            values@.no_duplicates(),
            values@.to_set() == solved_values_of(self@).union(solved_values_of(other@)),
    {
        let mut values: Vec<u8> = Vec::new();
        self.add_solved_to(&mut values, Ghost(Seq::empty()));
        other.add_solved_to(&mut values, Ghost(solved_list(self@)));
        proof {
            let all = solved_list(self@) + solved_list(other@);
            lemma_distinct(all);
            self.lemma_solved_list();
            other.lemma_solved_list();
            vstd::seq_lib::seq_to_set_distributes_over_add(
                solved_list(self@),
                solved_list(other@),
            );
        }
        values
    }

    /// The solved digits of the unit, listed, are its solved values.
    pub proof fn lemma_solved_list(&self)
        requires
            self.wf(),
        ensures
            solved_list(self@).to_set() == solved_values_of(self@),
    {
        self.lemma_view();
        let keep = |c: Set<u8>| is_solved(c);
        let kept = self@.filter(keep);
        let list = solved_list(self@);
        assert forall|v: u8| list.to_set().contains(v) <==> solved_values_of(self@).contains(
            v,
        ) by {
            if list.contains(v) {
                let j = choose|j: int| 0 <= j < list.len() && list[j] == v;
                assert(kept.contains(kept[j]));
                self@.lemma_filter_contains_rev(keep, kept[j]);
                self@.lemma_filter_pred(keep, j);
                let p = choose|p: int| 0 <= p < self@.len() && self@[p] == kept[j];
                assert(is_solved(self@[p]) && self@[p].contains(v));
            }
            if solved_values_of(self@).contains(v) {
                let p = choose|p: int|
                    0 <= p < self@.len() && is_solved(#[trigger] self@[p]) && self@[p].contains(v);
                self@.lemma_filter_contains(keep, p);
                let j = choose|j: int| 0 <= j < kept.len() && kept[j] == self@[p];
                assert(list[j] == v);
            }
        }
        assert(list.to_set() =~= solved_values_of(self@));
    }

    /// Adds the solved digits of the unit to a list without repeats, each
    /// unless it is there already.
    fn add_solved_to(&self, values: &mut Vec<u8>, Ghost(seen): Ghost<Seq<u8>>)
        requires
            self.wf(),
            old(values)@ == distinct(seen),
        ensures
            final(values)@ == distinct(seen + solved_list(self@)),
    {
        let ghost keep = |c: Set<u8>| is_solved(c);
        let ghost digit = |c: Set<u8>| value_of(c);
        proof {
            self.lemma_view();
            assert(self@.take(0).filter(keep) =~= Seq::empty()) by {
                reveal(Seq::filter);
            }
            assert(seen + self@.take(0).filter(keep).map_values(digit) =~= seen);
        }
        let mut p: usize = 0;
        while p < 9
            invariant
                self.wf(),
                p <= 9,
                keep == |c: Set<u8>| is_solved(c),
                digit == |c: Set<u8>| value_of(c),
                values@ == distinct(seen + self@.take(p as int).filter(keep).map_values(digit)),
                forall|q: int|
                    0 <= q < 9 ==> (#[trigger] self@[q]).finite() && is_solved(self@[q]) == (
                    self.cells@[q].probabilities@.len() == 1) && (is_solved(self@[q])
                        ==> value_of(self@[q]) == self.cells@[q].probabilities@[0] && self@[q]
                        == set![value_of(self@[q])]),
            decreases 9 - p,
        {
            proof {
                let done = self@.take(p as int);
                assert(self@.take(p + 1) =~= done.push(self@[p as int]));
                done.lemma_filter_push(self@[p as int], keep);
                done.filter(keep).lemma_push_map_commute(digit, self@[p as int]);
            }
            if self.cells[p].solved() {
                let v = self.cells[p].value();
                let ghost listed = seen + self@.take(p as int).filter(keep).map_values(digit);
                proof {
                    assert((seen + self@.take(p + 1).filter(keep).map_values(digit))
                        =~= listed.push(v));
                    assert(listed.push(v).drop_last() =~= listed);
                }
                if !contains_value(values, v) {
                    values.push(v);
                }
            }
            p += 1;
        }
        assert(self@.take(9) =~= self@);
    }
}

} // verus!
