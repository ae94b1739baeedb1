//! Which training sentences the matched grammar patterns cover.
use crate::subsequence::{is_subsequence, occurs_in_order};
use vstd::prelude::*;

verus! {

/// A list of id sequences as mathematical sequences.
pub open spec fn id_seqs(v: Seq<Vec<u32>>) -> Seq<Seq<u32>> {
    v.map_values(|s: Vec<u32>| s@)
}

/// The matched pattern ids, in their given order, whose patterns occur in
/// order in `sentence`.
pub open spec fn covering(
    matched: Seq<usize>,
    grammar: Seq<Seq<u32>>,
    sentence: Seq<u32>,
) -> Seq<usize> {
    matched.filter(|pid: usize| occurs_in_order(grammar[pid as int], sentence))
}

/// For every training sentence, the matched pattern ids (in the order of
/// `matched_ids`) whose grammar pattern occurs in that sentence in order.
/// A sentence is scored by exactly the patterns listed for it; one with an
/// empty list is not retrieved.
pub fn covering_patterns(
    matched_ids: &Vec<usize>,
    grammar: &Vec<Vec<u32>>,
    train: &Vec<Vec<u32>>,
) -> (cover: Vec<Vec<usize>>)
    requires
        forall|k: int| 0 <= k < matched_ids@.len() ==> #[trigger] matched_ids@[k] < grammar@.len(),
    ensures
        cover@.len() == train@.len(),
        forall|t: int|
            0 <= t < train@.len() ==> #[trigger] cover@[t]@ == covering(
                matched_ids@,
                id_seqs(grammar@),
                train@[t]@,
            ),
        forall|t: int, pid: usize|
            0 <= t < train@.len() ==> (#[trigger] cover@[t]@.contains(pid) <==> matched_ids@.contains(
                pid,
            ) && occurs_in_order(grammar@[pid as int]@, train@[t]@)),
{
    let ghost g = id_seqs(grammar@);
    let mut cover: Vec<Vec<usize>> = Vec::with_capacity(train.len());
    let mut t: usize = 0;
    while t < train.len()
        invariant
            t <= train@.len(),
            g == id_seqs(grammar@),
            forall|k: int| 0 <= k < matched_ids@.len() ==> #[trigger] matched_ids@[k] < grammar@.len(),
            cover@.len() == t,
            forall|u: int|
                0 <= u < t ==> #[trigger] cover@[u]@ == covering(matched_ids@, g, train@[u]@),
        decreases train@.len() - t,
    {
        let sentence = &train[t];
        let ghost pred = |pid: usize| occurs_in_order(g[pid as int], sentence@);
        let mut hits: Vec<usize> = Vec::new();
        let mut k: usize = 0;
        while k < matched_ids.len()
            invariant
                k <= matched_ids@.len(),
                g == id_seqs(grammar@),
                pred == (|pid: usize| occurs_in_order(g[pid as int], sentence@)),
                forall|q: int| 0 <= q < matched_ids@.len() ==> #[trigger] matched_ids@[q] < grammar@.len(),
                hits@ == matched_ids@.take(k as int).filter(pred),
            decreases matched_ids@.len() - k,
        {
            let pid = matched_ids[k];
            let found = is_subsequence(grammar[pid].as_slice(), sentence.as_slice());
            proof {
                assert(g[pid as int] == grammar@[pid as int]@);
                assert(matched_ids@.take(k + 1).drop_last() =~= matched_ids@.take(k as int));
                reveal_with_fuel(Seq::filter, 1);
            }
            if found {
                hits.push(pid);
            }
            k = k + 1;
        }
        proof {
            assert(matched_ids@.take(k as int) =~= matched_ids@);
        }
        cover.push(hits);
        t = t + 1;
    }
    proof {
        assert forall|t: int, pid: usize|
            0 <= t < train@.len() implies (#[trigger] cover@[t]@.contains(pid)
                <==> matched_ids@.contains(pid) && occurs_in_order(
                grammar@[pid as int]@,
                train@[t]@,
            )) by {
            lemma_covering_contains(matched_ids@, id_seqs(grammar@), train@[t]@, pid);
            if matched_ids@.contains(pid) {
                let k = choose|k: int| 0 <= k < matched_ids@.len() && matched_ids@[k] == pid;
                assert(matched_ids@[k] < grammar@.len());
                assert(id_seqs(grammar@)[pid as int] == grammar@[pid as int]@);
            }
        }
    }
    cover
}

/// A matched id is listed for a sentence exactly when its whole pattern
/// occurs in order in the whole sentence.
pub proof fn lemma_covering_contains(
    matched: Seq<usize>,
    grammar: Seq<Seq<u32>>,
    sentence: Seq<u32>,
    pid: usize,
)
    ensures
        covering(matched, grammar, sentence).contains(pid) <==> matched.contains(pid)
            && occurs_in_order(grammar[pid as int], sentence),
{
    let pred = |q: usize| occurs_in_order(grammar[q as int], sentence);
    if matched.contains(pid) && pred(pid) {
        let k = choose|k: int| 0 <= k < matched.len() && matched[k] == pid;
        matched.lemma_filter_contains(pred, k);
    }
    if matched.filter(pred).contains(pid) {
        matched.lemma_filter_contains_rev(pred, pid);
        let k = choose|k: int| 0 <= k < matched.filter(pred).len() && matched.filter(pred)[k] == pid;
        matched.lemma_filter_pred(pred, k);
    }
}

/// The positions `0, 1, ..., n - 1`.
pub open spec fn positions(n: nat) -> Seq<usize> {
    Seq::new(n, |i: int| i as usize)
}

/// Positions, in increasing order, of the grammar patterns of two or more
/// symbols: only these take part in retrieval.
pub fn multi_symbol_positions(patterns: &Vec<Vec<u32>>) -> (kept: Vec<usize>)
    ensures
        kept@ == positions(patterns@.len()).filter(|i: usize| patterns@[i as int]@.len() >= 2),
        forall|i: int|
            0 <= i < patterns@.len() ==> (kept@.contains(i as usize) <==> #[trigger] patterns@[i]@.len()
                >= 2),
        forall|k: int| 0 <= k < kept@.len() ==> #[trigger] kept@[k] < patterns@.len(),
        forall|a: int, b: int| 0 <= a < b < kept@.len() ==> #[trigger] kept@[a] < #[trigger] kept@[b],
{
    let ghost pred = |i: usize| patterns@[i as int]@.len() >= 2;
    let mut kept: Vec<usize> = Vec::new();
    let mut i: usize = 0;
    while i < patterns.len()
        invariant
            i <= patterns@.len(),
            pred == (|i: usize| patterns@[i as int]@.len() >= 2),
            kept@ == positions(i as nat).filter(pred),
            forall|j: int|
                0 <= j < i ==> (kept@.contains(j as usize) <==> #[trigger] patterns@[j]@.len() >= 2),
            forall|k: int| 0 <= k < kept@.len() ==> #[trigger] kept@[k] < i,
            forall|a: int, b: int| 0 <= a < b < kept@.len() ==> #[trigger] kept@[a] < #[trigger] kept@[b],
        decreases patterns@.len() - i,
    {
        let ghost before = kept@;
        proof {
            assert(positions((i + 1) as nat).drop_last() =~= positions(i as nat));
            assert(positions((i + 1) as nat).last() == i);
            reveal_with_fuel(Seq::filter, 1);
        }
        if patterns[i].len() >= 2 {
            kept.push(i);
        }
        proof {
            assert forall|j: int|
                0 <= j < i + 1 implies (kept@.contains(j as usize) <==> #[trigger] patterns@[j]@.len()
                >= 2) by {
                if kept@.contains(j as usize) && j < i {
                    let k = choose|k: int| 0 <= k < kept@.len() && kept@[k] == j as usize;
                    if k < before.len() {
                        assert(before[k] == j as usize);
                    } else {
                        assert(kept@[k] == i);
                    }
                    assert(before.contains(j as usize));
                }
                if before.contains(j as usize) {
                    let k = choose|k: int| 0 <= k < before.len() && before[k] == j as usize;
                    assert(kept@[k] == j as usize);
                }
                if j == i && patterns@[j]@.len() >= 2 {
                    assert(kept@[kept@.len() - 1] == i);
                }
                if j == i && kept@.contains(j as usize) {
                    let k = choose|k: int| 0 <= k < kept@.len() && kept@[k] == j as usize;
                    if k < before.len() {
                        assert(before[k] < i);
                    }
                }
            }
        }
        i = i + 1;
    }
    kept
}

/// `p` is the first position of `key` in `keys`.
pub open spec fn is_first_position(keys: Seq<u32>, key: u32, p: int) -> bool {
    &&& 0 <= p < keys.len()
    &&& keys[p] == key
    &&& forall|j: int| 0 <= j < p ==> keys[j] != key
}

fn first_position(keys: &Vec<u32>, key: u32) -> (found: Option<usize>)
    ensures
        match found {
            Some(p) => is_first_position(keys@, key, p as int),
            None => !keys@.contains(key),
        },
{
    let mut i: usize = 0;
    while i < keys.len()
        invariant
            i <= keys@.len(),
            forall|j: int| 0 <= j < i ==> keys@[j] != key,
        decreases keys@.len() - i,
    {
        if keys[i] == key {
            return Some(i);
        }
        i = i + 1;
    }
    None
}

/// For each id in `matched`, in order, the first position at which `keys`
/// holds it; ids that `keys` does not hold are skipped. This turns the ids
/// of the patterns an alignment used into positions in the grammar list.
pub fn positions_of(keys: &Vec<u32>, matched: &Vec<u32>) -> (found: Vec<usize>)
    ensures
        found@.len() == matched@.filter(|m: u32| keys@.contains(m)).len(),
        forall|k: int|
            0 <= k < found@.len() ==> is_first_position(
                keys@,
                matched@.filter(|m: u32| keys@.contains(m))[k],
                #[trigger] found@[k] as int,
            ),
{
    let ghost pred = |m: u32| keys@.contains(m);
    let mut found: Vec<usize> = Vec::new();
    let mut i: usize = 0;
    while i < matched.len()
        invariant
            i <= matched@.len(),
            pred == (|m: u32| keys@.contains(m)),
            found@.len() == matched@.take(i as int).filter(pred).len(),
            forall|k: int|
                0 <= k < found@.len() ==> is_first_position(
                    keys@,
                    matched@.take(i as int).filter(pred)[k],
                    #[trigger] found@[k] as int,
                ),
        decreases matched@.len() - i,
    {
        proof {
            assert(matched@.take(i + 1).drop_last() =~= matched@.take(i as int));
            assert(matched@.take(i + 1).last() == matched@[i as int]);
            reveal_with_fuel(Seq::filter, 1);
        }
        match first_position(keys, matched[i]) {
            Some(p) => {
                found.push(p);
            },
            None => {},
        }
        i = i + 1;
    }
    proof {
        assert(matched@.take(i as int) =~= matched@);
    }
    found
}

} // verus!
