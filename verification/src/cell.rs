//! One position of the board and the digits still possible there.

use crate::digits::InvalidInput;
use crate::geometry::{block_of, column_of, row_of};
use std::collections::HashSet;
use vstd::prelude::*;
use vstd::std_specs::cmp::PartialEqSpecImpl;

verus! {

broadcast use vstd::std_specs::hash::group_hash_axioms;

/// A sequence whose values grow strictly.
pub open spec fn increasing(s: Seq<u8>) -> bool {
    forall|i: int, j: int| 0 <= i < j < s.len() ==> s[i] < s[j]
}

/// The digits `1` to `9`.
pub open spec fn all_digits() -> Set<u8> {
    Set::new(|v: u8| 1 <= v <= 9)
}

/// A candidate set that has come down to one digit.
pub open spec fn is_solved(candidates: Set<u8>) -> bool {
    candidates.len() == 1
}

/// The digit of a solved candidate set, `0` for any other.
pub open spec fn value_of(candidates: Set<u8>) -> u8 {
    if is_solved(candidates) {
        candidates.choose()
    } else {
        0
    }
}

/// A finite set of size one holds its chosen element and nothing else.
pub proof fn lemma_solved_is_singleton(candidates: Set<u8>)
    requires
        candidates.finite(),
        is_solved(candidates),
    ensures
        candidates == set![value_of(candidates)],
        candidates.contains(value_of(candidates)),
{
    let v = candidates.choose();
    assert(candidates.contains(v));
    assert(candidates.remove(v).len() == 0);
    assert(candidates.remove(v) =~= Set::empty());
    assert(candidates =~= set![v]);
}

/// A one-element set is solved, with that element as its value.
pub proof fn lemma_singleton_is_solved(v: u8)
    ensures
        is_solved(set![v]),
        value_of(set![v]) == v,
        set![v].finite(),
{
    assert(set![v].len() == 1);
    lemma_solved_is_singleton(set![v]);
}

/// In an increasing sequence the value at each place is at least the place.
pub proof fn lemma_increasing_bound(s: Seq<u8>, i: int)
    requires
        increasing(s),
        0 <= i < s.len(),
    ensures
        s[i] >= i,
    decreases i,
{
    if i > 0 {
        lemma_increasing_bound(s, i - 1);
    }
}

/// An increasing sequence lists a finite set without repeats.
pub proof fn lemma_increasing_set(s: Seq<u8>)
    requires
        increasing(s),
    ensures
        s.no_duplicates(),
        s.to_set().finite(),
        s.to_set().len() == s.len(),
        s.len() <= 256,
        s.len() == 1 ==> s.to_set() == set![s[0]] && value_of(s.to_set()) == s[0],
{
    s.unique_seq_to_set();
    if s.len() > 0 {
        lemma_increasing_bound(s, s.len() - 1);
    }
    if s.len() == 1 {
        assert(s.to_set() =~= set![s[0]]) by {
            assert forall|v: u8| s.to_set().contains(v) implies v == s[0] by {
                let k = choose|k: int| 0 <= k < s.len() && s[k] == v;
            }
            assert(s.contains(s[0]));
        }
        lemma_singleton_is_solved(s[0]);
    }
}

/// One position of the board: where it is, and which digits are still
/// possible there, in increasing order.
#[derive(Debug)]
pub struct Cell {
    pub index: u8,
    pub probabilities: Vec<u8>,
}

impl View for Cell {
    type V = Set<u8>;

    /// The candidates, as a set.
    open spec fn view(&self) -> Set<u8> {
        self.probabilities@.to_set()
    }
}

impl Cell {
    /// The candidates are listed in increasing order, so none occurs twice.
    pub open spec fn wf(&self) -> bool {
        increasing(self.probabilities@)
    }

    /// What a well-formed cell's set of candidates says about its list.
    pub proof fn lemma_view(&self)
        requires
            self.wf(),
        ensures
            self@.finite(),
            self@.len() == self.probabilities@.len(),
            is_solved(self@) <==> self.probabilities@.len() == 1,
            is_solved(self@) ==> self@ == set![self.probabilities@[0]] && value_of(self@)
                == self.probabilities@[0],
    {
        lemma_increasing_set(self.probabilities@);
    }

    /// A cell for a digit read from a puzzle: `0` is a blank, where every
    /// digit is possible; another digit is the only candidate. A number above
    /// `9` is turned down.
    pub fn from_number(i: usize, number: u8) -> (cell: Result<Cell, InvalidInput>)
        requires
            i <= 80,
        ensures
            number > 9 <==> cell.is_err(),
            cell.is_err() ==> cell == Err::<Cell, InvalidInput>(InvalidInput::NotADigit),
            cell.is_ok() ==> {
                &&& cell.unwrap().index == i
                &&& cell.unwrap().wf()
                &&& cell.unwrap()@ == if number == 0 {
                    all_digits()
                } else {
                    set![number]
                }
            },
    {
        if number > 9 {
            return Err(InvalidInput::NotADigit);
        }
        let probabilities: Vec<u8> = if number == 0 {
            vec![1, 2, 3, 4, 5, 6, 7, 8, 9]
        } else {
            vec![number]
        };
        let cell = Cell { index: i as u8, probabilities };
        proof {
            let s = cell.probabilities@;
            if number == 0 {
                assert(cell@ =~= all_digits()) by {
                    assert forall|v: u8| all_digits().contains(v) implies s.contains(v) by {
                        assert(s[v - 1] == v);
                    }
                }
            } else {
                assert(cell@ =~= set![number]) by {
                    assert(s[0] == number);
                    assert(s.contains(number));
                }
            }
        }
        Ok(cell)
    }

    /// The candidates as a hash set.
    pub fn as_set(&self) -> (set: HashSet<u8>)
        ensures
            set@ == self@,
            set@.finite(),
    {
        let mut set: HashSet<u8> = HashSet::new();
        let mut k: usize = 0;
        while k < self.probabilities.len()
            invariant
                k <= self.probabilities@.len(),
                set@ == self.probabilities@.take(k as int).to_set(),
                set@.finite(),
            decreases self.probabilities@.len() - k,
        {
            let v = self.probabilities[k];
            set.insert(v);
            proof {
                let s = self.probabilities@;
                assert(s.take(k + 1) =~= s.take(k as int).push(v));
                s.take(k as int).lemma_push_to_set_commute(v);
            }
            k += 1;
        }
        assert(self.probabilities@.take(k as int) =~= self.probabilities@);
        set
    }

    /// The row of this cell.
    pub fn row(&self) -> (row: u8)
        ensures
            row == row_of(self.index as int),
    {
        self.index / 9
    }

    /// The column of this cell.
    pub fn column(&self) -> (column: u8)
        ensures
            column == column_of(self.index as int),
    {
        self.index % 9
    }

    /// The block of this cell.
    pub fn block(&self) -> (block: u8)
        ensures
            block == block_of(self.index as int),
    {
        self.index / 3 - self.index / 9 * 3 + self.index / 27 * 3
    }

    /// Whether a digit is still possible here.
    pub fn contains(&self, value: &u8) -> (found: bool)
        ensures
            found == self@.contains(*value),
    {
        let mut k: usize = 0;
        while k < self.probabilities.len()
            invariant
                k <= self.probabilities@.len(),
                forall|j: int| 0 <= j < k ==> self.probabilities@[j] != *value,
            decreases self.probabilities@.len() - k,
        {
            if self.probabilities[k] == *value {
                assert(self.probabilities@.contains(*value));
                return true;
            }
            k += 1;
        }
        false
    }

    /// Makes a digit the only candidate. Nothing is checked.
    pub fn set(&mut self, value: &u8)
        ensures
            final(self).index == old(self).index,
            final(self)@ == set![*value],
            final(self).probabilities@ == seq![*value],
            final(self).wf(),
    {
        self.probabilities = vec![*value];
        proof {
            assert(self.probabilities@ =~= seq![*value]);
            lemma_increasing_set(self.probabilities@);
        }
    }

    /// Takes one digit out of the candidates, if it is there.
    pub fn remove(&mut self, value: u8)
        ensures
            final(self).index == old(self).index,
            final(self)@ == old(self)@.remove(value),
            old(self).wf() ==> final(self).wf(),
    {
        let mut kept: Vec<u8> = Vec::new();
        let mut k: usize = 0;
        while k < self.probabilities.len()
            invariant
                k <= self.probabilities@.len(),
                forall|v: u8|
                    kept@.contains(v) <==> (v != value && self.probabilities@.take(
                        k as int,
                    ).contains(v)),
                self.wf() ==> increasing(kept@),
                self.wf() ==> forall|a: int, b: int|
                    0 <= a < kept@.len() && k <= b < self.probabilities@.len() ==> kept@[a]
                        < self.probabilities@[b],
            decreases self.probabilities@.len() - k,
        {
            let v = self.probabilities[k];
            proof {
                let s = self.probabilities@;
                assert(s.take(k + 1) =~= s.take(k as int).push(v));
            }
            let ghost before = kept@;
            if v != value {
                kept.push(v);
            }
            proof {
                let s = self.probabilities@;
                assert forall|w: u8|
                    kept@.contains(w) <==> (w != value && s.take(k + 1).contains(w)) by {
                    if v != value {
                        assert(kept@ == before.push(v));
                        assert(kept@[before.len() as int] == v);
                        if before.contains(w) {
                            let j = choose|j: int| 0 <= j < before.len() && before[j] == w;
                            assert(kept@[j] == w);
                        }
                    }
                    if s.take(k as int).contains(w) {
                        let seen = s.take(k as int);
                        let j = choose|j: int| 0 <= j < seen.len() && seen[j] == w;
                        assert(s.take(k + 1)[j] == w);
                    }
                    let next = s.take(k + 1);
                    assert(next[k as int] == v);
                    if next.contains(w) && w != v {
                        let j = choose|j: int| 0 <= j < next.len() && next[j] == w;
                        assert(s.take(k as int)[j] == w);
                    }
                }
            }
            k += 1;
        }
        proof {
            let s = self.probabilities@;
            assert(s.take(k as int) =~= s);
            assert(kept@.to_set() =~= s.to_set().remove(value));
        }
        self.probabilities = kept;
    }

    /// Takes every digit of `values` out of the candidates.
    pub fn remove_all(&mut self, values: &HashSet<u8>)
        ensures
            final(self).index == old(self).index,
            final(self)@ == old(self)@.difference(values@),
            old(self).wf() ==> final(self).wf(),
    {
        let mut kept: Vec<u8> = Vec::new();
        let mut k: usize = 0;
        while k < self.probabilities.len()
            invariant
                k <= self.probabilities@.len(),
                forall|v: u8|
                    kept@.contains(v) <==> (!values@.contains(v) && self.probabilities@.take(
                        k as int,
                    ).contains(v)),
                self.wf() ==> increasing(kept@),
                self.wf() ==> forall|a: int, b: int|
                    0 <= a < kept@.len() && k <= b < self.probabilities@.len() ==> kept@[a]
                        < self.probabilities@[b],
            decreases self.probabilities@.len() - k,
        {
            let v = self.probabilities[k];
            proof {
                let s = self.probabilities@;
                assert(s.take(k + 1) =~= s.take(k as int).push(v));
            }
            let ghost before = kept@;
            let drop = values.contains(&v);
            if !drop {
                kept.push(v);
            }
            proof {
                let s = self.probabilities@;
                assert forall|w: u8|
                    kept@.contains(w) <==> (!values@.contains(w) && s.take(k + 1).contains(
                        w,
                    )) by {
                    if !drop {
                        assert(kept@ == before.push(v));
                        assert(kept@[before.len() as int] == v);
                        if before.contains(w) {
                            let j = choose|j: int| 0 <= j < before.len() && before[j] == w;
                            assert(kept@[j] == w);
                        }
                    }
                    if s.take(k as int).contains(w) {
                        let seen = s.take(k as int);
                        let j = choose|j: int| 0 <= j < seen.len() && seen[j] == w;
                        assert(s.take(k + 1)[j] == w);
                    }
                    let next = s.take(k + 1);
                    assert(next[k as int] == v);
                    if next.contains(w) && w != v {
                        let j = choose|j: int| 0 <= j < next.len() && next[j] == w;
                        assert(s.take(k as int)[j] == w);
                    }
                }
            }
            k += 1;
        }
        proof {
            let s = self.probabilities@;
            assert(s.take(k as int) =~= s);
            assert(kept@.to_set() =~= s.to_set().difference(values@));
        }
        self.probabilities = kept;
    }

    /// The digit of a solved cell, `0` for an unsolved one.
    pub fn value(&self) -> (value: u8)
        ensures
            value == if self.probabilities@.len() == 1 {
                self.probabilities@[0]
            } else {
                0
            },
            self.wf() ==> value == value_of(self@),
    {
        proof {
            if self.wf() {
                self.lemma_view();
            }
        }
        if self.solved() {
            self.probabilities[0]
        } else {
            0
        }
    }

    /// A copy of the cell.
    pub fn clone(&self) -> (copy: Cell)
        ensures
            copy.index == self.index,
            copy.probabilities@ == self.probabilities@,
    {
        Cell { index: self.index, probabilities: self.probabilities.clone() }
    }

    /// Whether exactly one candidate is left.
    pub fn solved(&self) -> (solved: bool)
        ensures
            solved == (self.probabilities@.len() == 1),
            self.wf() ==> solved == is_solved(self@),
    {
        proof {
            if self.wf() {
                self.lemma_view();
            }
        }
        self.probabilities.len() == 1
    }
}

impl Clone for Cell {
    fn clone(&self) -> (copy: Cell)
        ensures
            copy.index == self.index,
            copy.probabilities@ == self.probabilities@,
    {
        Cell::clone(self)
    }
}

/// Whether two lists hold the same values in the same order.
pub fn same_list(a: &Vec<u8>, b: &Vec<u8>) -> (same: bool)
    ensures
        same == (a@ == b@),
{
    if a.len() != b.len() {
        return false;
    }
    let mut k: usize = 0;
    while k < a.len()
        invariant
            a@.len() == b@.len(),
            k <= a@.len(),
            forall|j: int| 0 <= j < k ==> a@[j] == b@[j],
        decreases a@.len() - k,
    {
        if a[k] != b[k] {
            return false;
        }
        k += 1;
    }
    assert(a@ =~= b@);
    true
}

/// Two cells at the same place with the same list of candidates.
pub open spec fn same_cell(a: &Cell, b: &Cell) -> bool {
    a.index == b.index && a.probabilities@ == b.probabilities@
}

impl PartialEq for Cell {
    /// Two cells are equal if they are at the same place and list the same
    /// candidates.
    fn eq(&self, other: &Self) -> (equal: bool) {
        self.index == other.index && same_list(&self.probabilities, &other.probabilities)
    }
}

impl PartialEqSpecImpl for Cell {
    open spec fn obeys_eq_spec() -> bool {
        true
    }

    open spec fn eq_spec(&self, other: &Self) -> bool {
        same_cell(self, other)
    }
}

} // verus!
