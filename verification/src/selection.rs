//! Collecting retrieved ids: the distinct ids of a sequence of alignments,
//! ids sorted ascending, and counts of rows.
use std::collections::HashSet;
use vstd::prelude::*;

verus! {

/// The ids of all groups, one group after another.
pub open spec fn concat_groups(groups: Seq<Vec<usize>>) -> Seq<usize>
    decreases groups.len(),
{
    if groups.len() == 0 {
        Seq::empty()
    } else {
        concat_groups(groups.drop_last()) + groups.last()@
    }
}

/// The distinct ids of `s`, each at its first occurrence, in order.
pub open spec fn distinct(s: Seq<usize>) -> Seq<usize> {
    s.remove_duplicates(Seq::empty())
}

/// Walks the alignments in order and collects every id not seen before: all
/// the distinct ids of all alignments, each at its first occurrence. Their
/// number is not limited.
pub fn distinct_ids(groups: &Vec<Vec<usize>>) -> (ids: Vec<usize>)
    ensures
        ids@ == distinct(concat_groups(groups@)),
        ids@.no_duplicates(),
        ids@.to_set() == concat_groups(groups@).to_set(),
{
    broadcast use vstd::std_specs::hash::group_hash_axioms;

    let mut ids: Vec<usize> = Vec::new();
    let mut seen: HashSet<usize> = HashSet::new();
    let ghost mut processed: Seq<usize> = Seq::empty();
    let mut i: usize = 0;
    while i < groups.len()
        invariant
            i <= groups@.len(),
            processed == concat_groups(groups@.take(i as int)),
            ids@ == distinct(processed),
            ids@.no_duplicates(),
            forall|x: usize| #[trigger] seen@.contains(x) <==> processed.contains(x),
        decreases groups@.len() - i,
    {
        let group = &groups[i];
        proof {
            assert(groups@.take(i + 1).drop_last() =~= groups@.take(i as int));
            assert(groups@.take(i + 1).last() == groups@[i as int]);
        }
        let ghost base = processed;
        let mut j: usize = 0;
        while j < group.len()
            invariant
                i < groups@.len(),
                *group == groups@[i as int],
                j <= group@.len(),
                processed == base + group@.take(j as int),
                ids@ == distinct(processed),
                ids@.no_duplicates(),
                forall|x: usize| #[trigger] seen@.contains(x) <==> processed.contains(x),
            decreases group@.len() - j,
        {
            let x = group[j];
            proof {
                assert(base + group@.take(j + 1) =~= (base + group@.take(j as int)) + seq![x]);
                processed.lemma_remove_duplicates_append(x, Seq::empty());
                processed.lemma_remove_duplicates_properties(Seq::empty());
                assert(processed + Seq::<usize>::empty() =~= processed);
            }
            let ghost seen_before = seen@;
            assert(ids@.contains(x) <==> processed.contains(x));
            let fresh = seen.insert(x);
            assert(seen@ == seen_before.insert(x));
            assert(fresh == !processed.contains(x));
            if fresh {
                ids.push(x);
            }
            proof {
                let before = processed;
                processed = processed + seq![x];
                assert forall|y: usize| #[trigger] seen@.contains(y) <==> processed.contains(y) by {
                    if processed.contains(y) && y != x {
                        let k = choose|k: int| 0 <= k < processed.len() && processed[k] == y;
                        assert(before[k] == y);
                    }
                    if before.contains(y) {
                        let k = choose|k: int| 0 <= k < before.len() && before[k] == y;
                        assert(processed[k] == y);
                    }
                    if y == x {
                        assert(processed[before.len() as int] == x);
                    }
                }
            }
            j = j + 1;
        }
        proof {
            assert(group@.take(j as int) =~= group@);
        }
        i = i + 1;
    }
    proof {
        assert(groups@.take(i as int) =~= groups@);
        processed.lemma_remove_duplicates_properties(Seq::empty());
        assert(processed + Seq::<usize>::empty() =~= processed);
        assert(ids@.to_set() =~= processed.to_set());
    }
    ids
}

/// Entries never decrease from left to right.
pub open spec fn is_ascending(s: Seq<usize>) -> bool {
    forall|i: int, j: int| 0 <= i < j < s.len() ==> s[i] <= s[j]
}

/// The ids of `v` in ascending order: the same ids, each as often as in `v`.
pub fn sorted_ascending(v: &Vec<usize>) -> (sorted: Vec<usize>)
    ensures
        is_ascending(sorted@),
        sorted@.to_multiset() == v@.to_multiset(),
        sorted@.len() == v@.len(),
{
    broadcast use {vstd::seq_lib::group_to_multiset_ensures, vstd::multiset::group_multiset_axioms};

    let mut sorted: Vec<usize> = Vec::with_capacity(v.len());
    let mut i: usize = 0;
    while i < v.len()
        invariant
            i <= v@.len(),
            is_ascending(sorted@),
            sorted@.to_multiset() == v@.take(i as int).to_multiset(),
        decreases v@.len() - i,
    {
        let x = v[i];
        let mut p: usize = 0;
        while p < sorted.len() && sorted[p] <= x
            invariant
                p <= sorted@.len(),
                forall|q: int| 0 <= q < p ==> sorted@[q] <= x,
            decreases sorted@.len() - p,
        {
            p = p + 1;
        }
        let ghost before = sorted@;
        sorted.insert(p, x);
        proof {
            assert(sorted@ == before.insert(p as int, x));
            before.insert_ensures(p as int, x);
            assert(sorted@.remove(p as int) =~= before);
            assert(sorted@[p as int] == x);
            assert(sorted@.contains(x));
            sorted@.to_multiset_ensures();
            before.to_multiset_ensures();
            v@.take(i as int).to_multiset_ensures();
            assert(sorted@.to_multiset().count(x) > 0);
            assert(before.to_multiset() =~= sorted@.to_multiset().remove(x));
            assert(sorted@.to_multiset() =~= before.to_multiset().insert(x));
            assert(v@.take(i + 1) =~= v@.take(i as int).push(x));
            assert forall|a: int, b: int| 0 <= a < b < sorted@.len() implies sorted@[a]
                <= sorted@[b] by {
                if b < p {
                } else if b == p {
                } else if a < p {
                    assert(sorted@[b] == before[b - 1]);
                } else if a == p {
                    assert(sorted@[b] == before[b - 1]);
                    if p < before.len() {
                        assert(before[p as int] > x);
                    }
                } else {
                    assert(sorted@[a] == before[a - 1]);
                    assert(sorted@[b] == before[b - 1]);
                }
            }
        }
        i = i + 1;
    }
    proof {
        assert(v@.take(i as int) =~= v@);
        sorted@.to_multiset_ensures();
        v@.to_multiset_ensures();
    }
    sorted
}

/// Number of rows holding exactly `len` ids.
pub fn count_rows_of_len(rows: &Vec<Vec<usize>>, len: usize) -> (count: usize)
    ensures
        count == rows@.filter(|r: Vec<usize>| r@.len() == len).len(),
{
    let ghost pred = |r: Vec<usize>| r@.len() == len;
    let mut count: usize = 0;
    let mut i: usize = 0;
    while i < rows.len()
        invariant
            i <= rows@.len(),
            pred == (|r: Vec<usize>| r@.len() == len),
            count == rows@.take(i as int).filter(pred).len(),
            count <= i,
        decreases rows@.len() - i,
    {
        proof {
            assert(rows@.take(i + 1).drop_last() =~= rows@.take(i as int));
            reveal_with_fuel(Seq::filter, 1);
        }
        if rows[i].len() == len {
            count = count + 1;
        }
        i = i + 1;
    }
    proof {
        assert(rows@.take(i as int) =~= rows@);
    }
    count
}

} // verus!
