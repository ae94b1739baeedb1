//! Overlap of two retrieved sets of sentence indices (Jaccard similarity),
//! computed exactly as a fraction.
use std::collections::HashSet;
use vstd::prelude::*;

verus! {

/// `|A ∩ B| / |A ∪ B|` as a (numerator, denominator) pair; two empty sets
/// count as identical, `1 / 1`.
pub open spec fn jaccard_of(a: Set<usize>, b: Set<usize>) -> (nat, nat) {
    if a.is_empty() && b.is_empty() {
        (1, 1)
    } else {
        (a.intersect(b).len(), a.union(b).len())
    }
}

/// Jaccard similarity of two index sets as an exact fraction
/// `(shared, total)`: the number of indices in both sets and the number in
/// either; `(1, 1)` when both are empty.
pub fn jaccard_fraction(a: &HashSet<usize>, b: &HashSet<usize>) -> (fraction: (usize, usize))
    ensures
        (fraction.0 as nat, fraction.1 as nat) == jaccard_of(a@, b@),
{
    broadcast use vstd::std_specs::hash::group_hash_axioms;

    if a.is_empty() && b.is_empty() {
        return (1, 1);
    }
    let mut shared: HashSet<usize> = HashSet::new();
    let mut either: HashSet<usize> = HashSet::new();
    for x in it: a.iter()
        invariant
            it.seq().unref().to_set() == a@,
            forall|y: usize|
                #[trigger] either@.contains(y) <==> it.seq().take(it.index() as int).unref().contains(y),
            forall|y: usize|
                #[trigger] shared@.contains(y) <==> it.seq().take(it.index() as int).unref().contains(y)
                    && b@.contains(y),
            it.index() == it.seq().len() ==> either@ == a@ && shared@ == a@.intersect(b@),
    {
        let ghost k = it.index();
        assert(*x == *it.seq()[k]);
        if b.contains(x) {
            shared.insert(*x);
        }
        either.insert(*x);
        assert(it.seq().take(k + 1).unref() =~= it.seq().take(k as int).unref().push(*x));
        assert forall|y: usize|
            it.seq().take(k + 1).unref().contains(y) <==> #[trigger] it.seq().take(
                k as int,
            ).unref().contains(y) || y == *x by {
            if it.seq().take(k + 1).unref().contains(y) && y != *x {
                let j = choose|j: int|
                    0 <= j < k + 1 && #[trigger] it.seq().take(k + 1).unref()[j] == y;
                assert(it.seq().take(k as int).unref()[j] == y);
            }
            if it.seq().take(k as int).unref().contains(y) {
                let j = choose|j: int|
                    0 <= j < k && #[trigger] it.seq().take(k as int).unref()[j] == y;
                assert(it.seq().take(k + 1).unref()[j] == y);
            }
            if y == *x {
                assert(it.seq().take(k + 1).unref()[k as int] == y);
            }
        }
        assert(k + 1 == it.seq().len() ==> either@ =~= a@ && shared@ =~= a@.intersect(b@)) by {
            if k + 1 == it.seq().len() {
                assert(it.seq().take(k + 1) =~= it.seq());
            }
        }
    }
    for x in it: b.iter()
        invariant
            it.seq().unref().to_set() == b@,
            forall|y: usize|
                #[trigger] either@.contains(y) <==> a@.contains(y) || it.seq().take(
                    it.index() as int,
                ).unref().contains(y),
            it.index() == it.seq().len() ==> either@ == a@.union(b@),
    {
        let ghost k = it.index();
        assert(*x == *it.seq()[k]);
        either.insert(*x);
        assert(it.seq().take(k + 1).unref() =~= it.seq().take(k as int).unref().push(*x));
        assert forall|y: usize|
            it.seq().take(k + 1).unref().contains(y) <==> #[trigger] it.seq().take(
                k as int,
            ).unref().contains(y) || y == *x by {
            if it.seq().take(k + 1).unref().contains(y) && y != *x {
                let j = choose|j: int|
                    0 <= j < k + 1 && #[trigger] it.seq().take(k + 1).unref()[j] == y;
                assert(it.seq().take(k as int).unref()[j] == y);
            }
            if it.seq().take(k as int).unref().contains(y) {
                let j = choose|j: int|
                    0 <= j < k && #[trigger] it.seq().take(k as int).unref()[j] == y;
                assert(it.seq().take(k + 1).unref()[j] == y);
            }
            if y == *x {
                assert(it.seq().take(k + 1).unref()[k as int] == y);
            }
        }
        assert(k + 1 == it.seq().len() ==> either@ =~= a@.union(b@)) by {
            if k + 1 == it.seq().len() {
                assert(it.seq().take(k + 1) =~= it.seq());
            }
        }
    }
    (shared.len(), either.len())
}

/// The fraction is always proper: shared values never outnumber the total,
/// and the total is positive.
pub proof fn lemma_jaccard_bounds(a: Set<usize>, b: Set<usize>)
    requires
        a.finite(),
        b.finite(),
    ensures
        jaccard_of(a, b).0 <= jaccard_of(a, b).1,
        jaccard_of(a, b).1 > 0,
{
    if !(a.is_empty() && b.is_empty()) {
        vstd::set_lib::lemma_len_subset(a.intersect(b), a.union(b));
        if a.is_empty() {
            let x = b.choose();
            assert(a.union(b).contains(x));
        } else {
            let x = a.choose();
            assert(a.union(b).contains(x));
        }
        assert(a.union(b).len() > 0) by {
            if a.union(b).len() == 0 {
                a.union(b).lemma_len0_is_empty();
            }
        }
    }
}

/// Jaccard similarity does not depend on the order of its arguments.
pub proof fn lemma_jaccard_symmetric(a: Set<usize>, b: Set<usize>)
    ensures
        jaccard_of(a, b) == jaccard_of(b, a),
{
    assert(a.intersect(b) =~= b.intersect(a));
    assert(a.union(b) =~= b.union(a));
}

/// Sets with no index in common share nothing.
pub proof fn lemma_jaccard_disjoint(a: Set<usize>, b: Set<usize>)
    requires
        a.disjoint(b),
        !(a.is_empty() && b.is_empty()),
    ensures
        jaccard_of(a, b).0 == 0,
{
    assert(a.intersect(b) =~= Set::empty());
}

/// Shared plus total counts every index of each set once: for finite sets
/// that are not both empty, `|A ∩ B| + |A ∪ B| == |A| + |B|`.
pub proof fn lemma_jaccard_counts(a: Set<usize>, b: Set<usize>)
    requires
        a.finite(),
        b.finite(),
        !(a.is_empty() && b.is_empty()),
    ensures
        jaccard_of(a, b).0 + jaccard_of(a, b).1 == a.len() + b.len(),
{
    vstd::set_lib::lemma_set_intersect_union_lens(a, b);
}

/// A set overlaps itself completely.
pub proof fn lemma_jaccard_self(a: Set<usize>)
    ensures
        jaccard_of(a, a).0 == jaccard_of(a, a).1,
{
    assert(a.intersect(a) =~= a);
    assert(a.union(a) =~= a);
}

} // verus!
