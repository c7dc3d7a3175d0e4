//! Choosing from a sequence: its combinations of a given size, and its
//! distinct values.

use itertools::Itertools;
use vstd::prelude::*;

verus! {

/// The ways to pick `k` items of `s` by place, each in the order of `s`,
/// listed in lexicographic order of the places picked.
pub open spec fn combinations_of(s: Seq<u8>, k: nat) -> Seq<Seq<u8>>
    decreases s.len(),
{
    if k == 0 {
        seq![Seq::empty()]
    } else if s.len() == 0 {
        Seq::empty()
    } else {
        combinations_of(s.drop_first(), (k - 1) as nat).map_values(|c: Seq<u8>| seq![s[0]] + c)
            + combinations_of(s.drop_first(), k)
    }
}

/// The values of `s` in the order in which each first occurs.
pub open spec fn distinct(s: Seq<u8>) -> Seq<u8>
    decreases s.len(),
{
    if s.len() == 0 {
        s
    } else {
        let head = distinct(s.drop_last());
        if head.contains(s.last()) {
            head
        } else {
            head.push(s.last())
        }
    }
}

/// The sequences that vectors of vectors stand for.
pub open spec fn rows_of(v: Seq<Vec<u8>>) -> Seq<Seq<u8>> {
    v.map_values(|row: Vec<u8>| row@)
}

/// Calls `Itertools::combinations` on the items and collects what it yields.
/// Trusted: the adaptor yields every `k`-length combination of the items
/// once, picked by place and not by value, in lexicographic order of the
/// places, which is what `combinations_of` lists. The adaptor allocates its
/// `k` places before it looks at the items, so `k` is kept to the size of a
/// unit.
#[verifier::external_body]
pub(crate) fn combinations(items: &Vec<u8>, k: usize) -> (found: Vec<Vec<u8>>)
    requires
        k <= 9,
    ensures
        rows_of(found@) == combinations_of(items@, k as nat),
{
    items.iter().copied().combinations(k).collect()
}

/// Calls `Itertools::unique` on the items and collects what it yields.
/// Trusted: the adaptor is stable and keeps the first of each group of equal
/// items, which is what `distinct` lists.
#[verifier::external_body]
pub(crate) fn unique(items: &Vec<u8>) -> (kept: Vec<u8>)
    ensures
        kept@ == distinct(items@),
{
    items.iter().copied().unique().collect()
}

/// Whether a list holds a value.
pub fn contains_value(values: &Vec<u8>, v: u8) -> (found: bool)
    ensures
        found == values@.contains(v),
{
    let mut k: usize = 0;
    while k < values.len()
        invariant
            k <= values@.len(),
            forall|j: int| 0 <= j < k ==> values@[j] != v,
        decreases values@.len() - k,
    {
        if values[k] == v {
            return true;
        }
        k += 1;
    }
    false
}

/// Every combination of size `k` has `k` items, and each is an item of the
/// sequence that it was picked from.
pub proof fn lemma_combination_items(s: Seq<u8>, k: nat, j: int)
    requires
        0 <= j < combinations_of(s, k).len(),
    ensures
        combinations_of(s, k)[j].len() == k,
        forall|x: u8| combinations_of(s, k)[j].contains(x) ==> s.contains(x),
    decreases s.len(),
{
    let combo = combinations_of(s, k)[j];
    if k == 0 {
    } else if s.len() == 0 {
    } else {
        let rest = s.drop_first();
        let with_first = combinations_of(rest, (k - 1) as nat).map_values(
            |c: Seq<u8>| seq![s[0]] + c,
        );
        if j < with_first.len() {
            let tail = combinations_of(rest, (k - 1) as nat)[j];
            lemma_combination_items(rest, (k - 1) as nat, j);
            assert(combo == seq![s[0]] + tail);
            assert forall|x: u8| combo.contains(x) implies s.contains(x) by {
                let q = choose|q: int| 0 <= q < combo.len() && combo[q] == x;
                if q == 0 {
                    assert(s[0] == x);
                } else {
                    assert(tail[q - 1] == x);
                    assert(tail.contains(x));
                    assert(rest.contains(x));
                    let r = choose|r: int| 0 <= r < rest.len() && rest[r] == x;
                    assert(s[r + 1] == x);
                }
            }
        } else {
            let other = combinations_of(rest, k)[j - with_first.len()];
            lemma_combination_items(rest, k, j - with_first.len());
            assert(combo == other);
            assert forall|x: u8| combo.contains(x) implies s.contains(x) by {
                assert(other.contains(x));
                assert(rest.contains(x));
                let r = choose|r: int| 0 <= r < rest.len() && rest[r] == x;
                assert(s[r + 1] == x);
            }
        }
    }
}

/// Whether `c` can be had from `s` by leaving items out.
pub open spec fn is_subsequence(c: Seq<u8>, s: Seq<u8>) -> bool
    decreases s.len(),
{
    if c.len() == 0 {
        true
    } else if s.len() == 0 {
        false
    } else {
        (c[0] == s[0] && is_subsequence(c.drop_first(), s.drop_first())) || is_subsequence(
            c,
            s.drop_first(),
        )
    }
}

/// The combinations of a sequence are its subsequences: what can be had
/// from it by leaving items out is listed, and nothing else is.
pub proof fn lemma_combinations_are_subsequences(s: Seq<u8>, c: Seq<u8>)
    ensures
        combinations_of(s, c.len()).contains(c) == is_subsequence(c, s),
    decreases s.len(),
{
    let k = c.len();
    let all = combinations_of(s, k);
    if k == 0 {
        assert(c =~= Seq::<u8>::empty());
        assert(all[0] == c);
    } else if s.len() == 0 {
    } else {
        let rest = s.drop_first();
        let shorter = combinations_of(rest, (k - 1) as nat);
        let with_first = shorter.map_values(|t: Seq<u8>| seq![s[0]] + t);
        let other = combinations_of(rest, k);
        let tail = c.drop_first();
        lemma_combinations_are_subsequences(rest, tail);
        lemma_combinations_are_subsequences(rest, c);
        if c[0] == s[0] && is_subsequence(tail, rest) {
            let j = choose|j: int| 0 <= j < shorter.len() && shorter[j] == tail;
            assert(with_first[j] =~= c);
            assert(all[j] == c);
        }
        if is_subsequence(c, rest) {
            let j = choose|j: int| 0 <= j < other.len() && other[j] == c;
            assert(all[with_first.len() + j] == c);
        }
        if all.contains(c) {
            let j = choose|j: int| 0 <= j < all.len() && all[j] == c;
            if j < with_first.len() {
                assert(c == seq![s[0]] + shorter[j]);
                assert(tail =~= shorter[j]);
                assert(shorter.contains(tail));
            } else {
                assert(other[j - with_first.len()] == c);
                assert(other.contains(c));
            }
        }
    }
}

/// Every combination of an increasing sequence is increasing.
pub proof fn lemma_combination_increasing(s: Seq<u8>, k: nat, j: int)
    requires
        crate::cell::increasing(s),
        0 <= j < combinations_of(s, k).len(),
    ensures
        crate::cell::increasing(combinations_of(s, k)[j]),
    decreases s.len(),
{
    let combo = combinations_of(s, k)[j];
    if k == 0 {
    } else if s.len() == 0 {
    } else {
        let rest = s.drop_first();
        assert(crate::cell::increasing(rest)) by {
            assert forall|a: int, b: int| 0 <= a < b < rest.len() implies rest[a] < rest[b] by {
                assert(rest[a] == s[a + 1] && rest[b] == s[b + 1]);
            }
        }
        let with_first = combinations_of(rest, (k - 1) as nat).map_values(
            |c: Seq<u8>| seq![s[0]] + c,
        );
        if j < with_first.len() {
            let tail = combinations_of(rest, (k - 1) as nat)[j];
            lemma_combination_increasing(rest, (k - 1) as nat, j);
            lemma_combination_items(rest, (k - 1) as nat, j);
            assert(combo == seq![s[0]] + tail);
            assert forall|a: int, b: int| 0 <= a < b < combo.len() implies combo[a] < combo[b] by {
                assert(combo[b] == tail[b - 1]);
                assert(tail.contains(tail[b - 1]));
                assert(rest.contains(tail[b - 1]));
                let r = choose|r: int| 0 <= r < rest.len() && rest[r] == tail[b - 1];
                assert(s[0] < s[r + 1]);
                if a > 0 {
                    assert(combo[a] == tail[a - 1]);
                }
            }
        } else {
            lemma_combination_increasing(rest, k, j - with_first.len());
            assert(combo == combinations_of(rest, k)[j - with_first.len()]);
        }
    }
}

/// A sequence that is not empty and repeats one value.
pub open spec fn uniform(s: Seq<u8>) -> bool {
    &&& s.len() > 0
    &&& forall|j: int| 0 <= j < s.len() ==> #[trigger] s[j] == s[0]
}

/// A sequence has one distinct value just when it repeats one value.
pub proof fn lemma_distinct_uniform(s: Seq<u8>)
    ensures
        distinct(s).len() == 1 <==> uniform(s),
        s.len() > 0 ==> distinct(s).len() > 0 && distinct(s)[0] == s[0],
    decreases s.len(),
{
    if s.len() == 0 {
    } else {
        let front = s.drop_last();
        let head = distinct(front);
        lemma_distinct_uniform(front);
        lemma_distinct(front);
        if front.len() == 0 {
            assert(head.len() == 0);
            assert(!head.contains(s.last()));
            assert(distinct(s) =~= seq![s.last()]);
        } else {
            assert(front[0] == s[0]);
            if head.contains(s.last()) {
                assert(front.to_set().contains(s.last()));
            } else {
                assert(!front.to_set().contains(s.last()));
                assert(front.contains(s[0]));
                assert(s.last() != s[0]);
            }
            if uniform(s) {
                assert forall|j: int| 0 <= j < front.len() implies #[trigger] front[j] == front[0] by {
                    assert(front[j] == s[j]);
                }
                assert(front.contains(s.last())) by {
                    assert(front[0] == s.last());
                }
                assert(head.to_set().contains(s.last()));
            }
            if distinct(s).len() == 1 {
                assert(head.contains(s.last()));
                assert(head.len() == 1);
                assert(head[0] == s[0]);
                assert(head.to_set().contains(s.last()));
                let q = choose|q: int| 0 <= q < head.len() && head[q] == s.last();
                assert(s.last() == s[0]);
                assert forall|j: int| 0 <= j < s.len() implies #[trigger] s[j] == s[0] by {
                    if j < front.len() {
                        assert(front[j] == front[0]);
                    }
                }
            }
        }
    }
}

/// Whether a list is not empty and repeats one value.
pub fn is_uniform(values: &Vec<u8>) -> (same: bool)
    ensures
        same == uniform(values@),
{
    if values.len() == 0 {
        return false;
    }
    let mut k: usize = 1;
    while k < values.len()
        invariant
            1 <= k <= values@.len(),
            forall|j: int| 0 <= j < k ==> #[trigger] values@[j] == values@[0],
        decreases values@.len() - k,
    {
        if values[k] != values[0] {
            return false;
        }
        k += 1;
    }
    true
}

/// The distinct values of a sequence are its values, each once.
pub proof fn lemma_distinct(s: Seq<u8>)
    ensures
        distinct(s).no_duplicates(),
        distinct(s).to_set() == s.to_set(),
        distinct(s).len() <= s.len(),
    decreases s.len(),
{
    if s.len() == 0 {
    } else {
        let head = distinct(s.drop_last());
        lemma_distinct(s.drop_last());
        assert(s =~= s.drop_last().push(s.last()));
        s.drop_last().lemma_push_to_set_commute(s.last());
        if head.contains(s.last()) {
            assert(head.to_set().contains(s.last()));
            assert(s.to_set() =~= head.to_set());
        } else {
            head.lemma_push_to_set_commute(s.last());
        }
    }
}

} // verus!
