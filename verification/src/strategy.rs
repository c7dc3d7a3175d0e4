//! A deduction, kept apart from the board it will be applied to.

use crate::grid::Removal;
use std::collections::{HashMap, HashSet};
use vstd::prelude::*;

verus! {

broadcast use vstd::std_specs::hash::group_hash_axioms;

/// The removal that a table from cells to digit sets stands for.
pub open spec fn removal_of(table: Map<u8, HashSet<u8>>) -> Removal {
    Map::new(|i: u8| table.dom().contains(i), |i: u8| table[i]@)
}

/// A named batch of candidate removals: for some cells, the digits that a
/// deduction has ruled out there.
pub struct Strategy {
    name: String,
    remove: HashMap<u8, HashSet<u8>>,
}

impl View for Strategy {
    type V = Removal;

    /// The digits to take away, cell by cell.
    closed spec fn view(&self) -> Removal {
        removal_of(self.remove@)
    }
}

impl Strategy {
    /// The name of the deduction that made this strategy.
    pub closed spec fn label(&self) -> Seq<char> {
        self.name@
    }

    /// A strategy with the given name and removals.
    pub fn new(name: String, remove: HashMap<u8, HashSet<u8>>) -> (strategy: Strategy)
        ensures
            strategy.label() == name@,
            strategy@ == removal_of(remove@),
    {
        Strategy { name, remove }
    }

    /// The name of the deduction that made this strategy.
    pub fn name(&self) -> (name: &String)
        ensures
            name@ == self.label(),
    {
        &self.name
    }

    /// The table of removals.
    pub fn removals(&self) -> (table: &HashMap<u8, HashSet<u8>>)
        ensures
            removal_of(table@) == self@,
    {
        &self.remove
    }

    /// The digits to take from one cell, if the strategy names the cell.
    pub fn removal_for(&self, index: u8) -> (digits: Option<&HashSet<u8>>)
        ensures
            digits.is_some() <==> self@.dom().contains(index),
            digits.is_some() ==> digits.unwrap()@ == self@[index],
    {
        self.remove.get(&index)
    }
}

} // verus!
