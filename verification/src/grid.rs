//! The board as mathematics: eighty-one candidate sets, and what it means to
//! take candidates away from them.

use crate::cell::is_solved;
use vstd::prelude::*;

verus! {

/// The candidate sets of the cells `0` to `80`, in that order.
pub type Grid = Seq<Set<u8>>;

/// What one batch of removals takes from each cell that it names.
pub type Removal = Map<u8, Set<u8>>;

/// Eighty-one finite candidate sets.
pub open spec fn grid_wf(g: Grid) -> bool {
    &&& g.len() == 81
    &&& forall|i: int| 0 <= i < 81 ==> (#[trigger] g[i]).finite()
}

/// Cells of the board only.
pub open spec fn on_board(cells: Seq<u8>) -> bool {
    forall|p: int| 0 <= p < cells.len() ==> cells[p] <= 80
}

/// The candidate sets of the given cells, in the order given.
pub open spec fn unit_view(g: Grid, cells: Seq<u8>) -> Seq<Set<u8>> {
    cells.map_values(|c: u8| g[c as int])
}

/// The digits that solved candidate sets among `sets` have.
pub open spec fn solved_values_of(sets: Seq<Set<u8>>) -> Set<u8> {
    Set::new(
        |v: u8| exists|p: int| 0 <= p < sets.len() && is_solved(#[trigger] sets[p]) && sets[p].contains(v),
    )
}

/// The places in `sets` whose candidate set is not solved, in order.
pub open spec fn unsolved_positions(sets: Seq<Set<u8>>) -> Seq<int> {
    Seq::new(sets.len(), |p: int| p).filter(|p: int| !is_solved(sets[p]))
}

/// The digits that the solved cells among `cells` have.
pub open spec fn solved_values(g: Grid, cells: Seq<u8>) -> Set<u8> {
    solved_values_of(unit_view(g, cells))
}

/// The cells among `cells` that are not solved, in the order given.
pub open spec fn unsolved(g: Grid, cells: Seq<u8>) -> Seq<u8> {
    cells.filter(|c: u8| !is_solved(g[c as int]))
}

/// The digits that a removal takes from cell `i`: none where it does not
/// name the cell.
pub open spec fn removed_by(r: Removal, i: u8) -> Set<u8> {
    if r.dom().contains(i) {
        r[i]
    } else {
        Set::empty()
    }
}

/// The digits that any removal of a batch takes from cell `i`.
pub open spec fn removed_by_all(batch: Seq<Removal>, i: u8) -> Set<u8> {
    Set::new(|v: u8| exists|j: int| 0 <= j < batch.len() && removed_by(#[trigger] batch[j], i).contains(v))
}

/// The grid after one removal: set subtraction, cell by cell.
pub open spec fn without(g: Grid, r: Removal) -> Grid {
    Seq::new(g.len(), |i: int| g[i].difference(removed_by(r, i as u8)))
}

/// The grid after a whole batch of removals, in whatever order.
pub open spec fn without_all(g: Grid, batch: Seq<Removal>) -> Grid {
    Seq::new(g.len(), |i: int| g[i].difference(removed_by_all(batch, i as u8)))
}

/// Filtering cells by a property of their place is filtering the places.
pub proof fn lemma_filter_by_position<A>(s: Seq<A>, keep: spec_fn(A) -> bool)
    ensures
        s.filter(keep) == Seq::new(s.len(), |p: int| p).filter(|p: int| keep(s[p])).map_values(
            |p: int| s[p],
        ),
    decreases s.len(),
{
    let places = Seq::new(s.len(), |p: int| p);
    let keep_place = |p: int| keep(s[p]);
    let at = |p: int| s[p];
    reveal(Seq::filter);
    if s.len() == 0 {
        assert(s.filter(keep) =~= places.filter(keep_place).map_values(at));
    } else {
        let s0 = s.drop_last();
        let places0 = Seq::new(s0.len(), |p: int| p);
        let keep_place0 = |p: int| keep(s0[p]);
        let at0 = |p: int| s0[p];
        lemma_filter_by_position(s0, keep);
        assert(places.drop_last() =~= places0);
        // the two filters of places agree, since the predicates agree on them
        assert(places0.filter(keep_place0) == places0.filter(keep_place)) by {
            lemma_filter_agree(places0, keep_place0, keep_place);
        }
        let kept0 = places0.filter(keep_place);
        assert(kept0.map_values(at0) =~= kept0.map_values(at)) by {
            assert forall|j: int| 0 <= j < kept0.len() implies at0(kept0[j]) == at(kept0[j]) by {
                assert(kept0.contains(kept0[j]));
                places0.lemma_filter_contains_rev(keep_place, kept0[j]);
                let q = choose|q: int| 0 <= q < places0.len() && places0[q] == kept0[j];
            }
        }
        let n = s.len() - 1;
        assert(places.last() == n);
        if keep(s.last()) {
            assert(places.filter(keep_place) == kept0.push(n));
            assert(kept0.push(n).map_values(at) =~= kept0.map_values(at).push(s[n]));
        }
    }
}

/// Two predicates that agree on the elements of a sequence filter it alike.
pub proof fn lemma_filter_agree<A>(s: Seq<A>, p: spec_fn(A) -> bool, q: spec_fn(A) -> bool)
    requires
        forall|i: int| 0 <= i < s.len() ==> p(s[i]) == q(s[i]),
    ensures
        s.filter(p) == s.filter(q),
    decreases s.len(),
{
    reveal(Seq::filter);
    if s.len() > 0 {
        lemma_filter_agree(s.drop_last(), p, q);
    }
}

/// The unsolved cells of a unit are the cells at its unsolved places.
pub proof fn lemma_unsolved_by_position(g: Grid, cells: Seq<u8>)
    ensures
        unsolved(g, cells) == unsolved_positions(unit_view(g, cells)).map_values(
            |p: int| cells[p],
        ),
{
    let keep = |c: u8| !is_solved(g[c as int]);
    lemma_filter_by_position(cells, keep);
    let places = Seq::new(cells.len(), |p: int| p);
    let sets = unit_view(g, cells);
    assert(Seq::new(sets.len(), |p: int| p) =~= places);
    lemma_filter_agree(places, |p: int| keep(cells[p]), |p: int| !is_solved(sets[p]));
}

} // verus!
