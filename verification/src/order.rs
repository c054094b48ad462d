//! Sorting by a total order.

use vstd::prelude::*;

use crate::text;

verus! {

/// Values that a total order on their views ranks.
pub trait Ranked: Sized {
    type Rank;

    spec fn rank(&self) -> Self::Rank;

    spec fn ordered(a: Self::Rank, b: Self::Rank) -> bool;

    proof fn lemma_ordered()
        ensures
            vstd::relations::total_ordering(|a: Self::Rank, b: Self::Rank| Self::ordered(a, b)),
    ;

    fn not_after(&self, other: &Self) -> (r: bool)
        ensures
            r == Self::ordered(self.rank(), other.rank()),
    ;
}

/// The views of a list of values.
pub open spec fn ranks<T: Ranked>(items: Seq<T>) -> Seq<T::Rank> {
    items.map_values(|x: T| x.rank())
}

/// The views in ascending order.
pub open spec fn ascending<T: Ranked>(items: Seq<T::Rank>) -> Seq<T::Rank> {
    items.sort_by(|a: T::Rank, b: T::Rank| T::ordered(a, b))
}

/// Puts the values in ascending order.
pub fn sort<T: Ranked>(items: Vec<T>) -> (r: Vec<T>)
    ensures
        ranks(r@) == ascending::<T>(ranks(items@)),
{
    let ghost leq = |a: T::Rank, b: T::Rank| T::ordered(a, b);
    let mut rest = items;
    let mut out: Vec<T> = Vec::new();
    proof {
        T::lemma_ordered();
        assert(ranks(out@) =~= Seq::<T::Rank>::empty());
    }
    let ghost mut taken: Seq<T::Rank> = seq![];
    while rest.len() > 0
        invariant
            leq == (|a: T::Rank, b: T::Rank| T::ordered(a, b)),
            vstd::relations::total_ordering(leq),
            ranks(out@).to_multiset() == taken.to_multiset(),
            vstd::relations::sorted_by(ranks(out@), leq),
            taken + ranks(rest@) == ranks(items@),
        decreases rest@.len(),
    {
        let ghost before = rest@;
        let item = rest.remove(0);
        let ghost sorted = out@;
        proof {
            let prior = taken;
            taken = taken.push(item.rank());
            assert(taken + ranks(rest@) =~= prior + ranks(before));
            vstd::seq_lib::to_multiset_build(prior, item.rank());
        }
        let mut p: usize = out.len();
        while p > 0 && !out[p - 1].not_after(&item)
            invariant
                p <= out@.len(),
                out@ == sorted,
                forall|j: int| p <= j < out@.len() ==> !T::ordered(#[trigger] out@[j].rank(), item.rank()),
            decreases p,
        {
            p -= 1;
        }
        out.insert(p, item);
        proof {
            assert(ranks(out@) =~= ranks(sorted).insert(p as int, item.rank()));
            vstd::seq_lib::to_multiset_insert(ranks(sorted), p as int, item.rank());
            let s = ranks(out@);
            assert forall|i: int, j: int| 0 <= i < j < s.len() implies #[trigger] leq(
                s[i],
                s[j],
            ) by {
                let old_i = if i < p { i } else { i - 1 };
                let old_j = if j < p { j } else { j - 1 };
                if i == p {
                    assert(s[j] == sorted[old_j].rank());
                    assert(leq(s[i], s[j]) || leq(s[j], s[i]));
                } else if j == p {
                    assert(s[i] == sorted[old_i].rank());
                    if i < p - 1 {
                        assert(leq(ranks(sorted)[i], ranks(sorted)[p - 1]));
                        assert(leq(ranks(sorted)[p - 1], item.rank()));
                    }
                } else {
                    assert(leq(ranks(sorted)[old_i], ranks(sorted)[old_j]));
                }
            }
        }
    }
    proof {
        assert(taken =~= ranks(items@));
        ranks(items@).lemma_sort_by_ensures(leq);
        vstd::seq_lib::lemma_sorted_unique(ranks(out@), ascending::<T>(ranks(items@)), leq);
    }
    out
}

impl Ranked for String {
    type Rank = Seq<char>;

    open spec fn rank(&self) -> Seq<char> {
        self@
    }

    open spec fn ordered(a: Seq<char>, b: Seq<char>) -> bool {
        text::text_le(a, b)
    }

    proof fn lemma_ordered() {
        let leq = |a: Seq<char>, b: Seq<char>| Self::ordered(a, b);
        assert forall|a: Seq<char>| #[trigger] leq(a, a) by {
            text::lemma_text_le_reflexive(a);
        }
        assert forall|a: Seq<char>, b: Seq<char>| #[trigger] leq(a, b) || #[trigger] leq(b, a) by {
            text::lemma_text_le_total(a, b);
        }
        assert forall|a: Seq<char>, b: Seq<char>| #[trigger]
            leq(a, b) && #[trigger] leq(b, a) implies a == b by {
            text::lemma_text_le_antisymmetric(a, b);
        }
        assert forall|a: Seq<char>, b: Seq<char>, c: Seq<char>| #[trigger]
            leq(a, b) && #[trigger] leq(b, c) implies leq(a, c) by {
            text::lemma_text_le_transitive(a, b, c);
        }
    }

    fn not_after(&self, other: &Self) -> (r: bool) {
        text::not_after(self.as_str(), other.as_str())
    }
}

} // verus!
