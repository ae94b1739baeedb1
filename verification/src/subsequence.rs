//! Whether a grammar pattern occurs, in order and possibly with gaps, in a
//! sentence of symbol ids.
use vstd::prelude::*;

verus! {

/// `idx` places pattern symbol `k` at sentence position `idx[k]`, with
/// strictly increasing positions and matching symbols.
pub open spec fn is_embedding(idx: Seq<int>, pattern: Seq<u32>, sentence: Seq<u32>) -> bool {
    &&& idx.len() == pattern.len()
    &&& forall|k: int|
        0 <= k < idx.len() ==> 0 <= #[trigger] idx[k] < sentence.len() && sentence[idx[k]]
            == pattern[k]
    &&& forall|k: int, l: int| 0 <= k < l < idx.len() ==> #[trigger] idx[k] < #[trigger] idx[l]
}

/// The symbols of `pattern` appear in `sentence` in the same order, with
/// any number of other symbols between them.
pub open spec fn occurs_in_order(pattern: Seq<u32>, sentence: Seq<u32>) -> bool {
    exists|idx: Seq<int>| is_embedding(idx, pattern, sentence)
}

/// How many leading pattern symbols a left-to-right scan of `sentence`
/// matches when it always takes the first occurrence of the next symbol.
pub open spec fn greedy_matched(pattern: Seq<u32>, sentence: Seq<u32>) -> nat
    decreases sentence.len(),
{
    if sentence.len() == 0 {
        0
    } else {
        let g = greedy_matched(pattern, sentence.drop_last());
        if g < pattern.len() && sentence.last() == pattern[g as int] {
            g + 1
        } else {
            g
        }
    }
}

proof fn lemma_greedy_bounds(pattern: Seq<u32>, sentence: Seq<u32>)
    ensures
        greedy_matched(pattern, sentence) <= pattern.len(),
        sentence.len() > 0 ==> greedy_matched(pattern, sentence.drop_last()) <= greedy_matched(
            pattern,
            sentence,
        ),
    decreases sentence.len(),
{
    if sentence.len() > 0 {
        lemma_greedy_bounds(pattern, sentence.drop_last());
    }
}

/// The scan's matches form an embedding of the matched prefix.
proof fn lemma_greedy_sound(pattern: Seq<u32>, sentence: Seq<u32>) -> (idx: Seq<int>)
    ensures
        greedy_matched(pattern, sentence) <= pattern.len(),
        is_embedding(
            idx,
            pattern.take(greedy_matched(pattern, sentence) as int),
            sentence,
        ),
    decreases sentence.len(),
{
    lemma_greedy_bounds(pattern, sentence);
    if sentence.len() == 0 {
        Seq::empty()
    } else {
        let rest = sentence.drop_last();
        let prev = lemma_greedy_sound(pattern, rest);
        let g = greedy_matched(pattern, rest);
        let n = sentence.len() - 1;
        if g < pattern.len() && sentence.last() == pattern[g as int] {
            let idx = prev.push(n);
            assert forall|k: int| 0 <= k < idx.len() implies 0 <= #[trigger] idx[k]
                < sentence.len() && sentence[idx[k]] == pattern.take(g + 1 as int)[k] by {
                if k < g {
                    assert(idx[k] == prev[k]);
                    assert(rest[prev[k]] == sentence[prev[k]]);
                }
            }
            assert forall|k: int, l: int| 0 <= k < l < idx.len() implies #[trigger] idx[k]
                < #[trigger] idx[l] by {
                if l < g {
                    assert(idx[k] == prev[k] && idx[l] == prev[l]);
                } else {
                    assert(idx[k] == prev[k]);
                }
            }
            idx
        } else {
            assert forall|k: int| 0 <= k < prev.len() implies 0 <= #[trigger] prev[k]
                < sentence.len() && sentence[prev[k]] == pattern.take(g as int)[k] by {
                assert(rest[prev[k]] == sentence[prev[k]]);
            }
            prev
        }
    }
}

/// The scan matches at least as many symbols as any embedding of a prefix.
proof fn lemma_greedy_complete(pattern: Seq<u32>, sentence: Seq<u32>, idx: Seq<int>, m: int)
    requires
        0 <= m <= pattern.len(),
        is_embedding(idx, pattern.take(m), sentence),
    ensures
        m <= greedy_matched(pattern, sentence),
    decreases sentence.len(),
{
    lemma_greedy_bounds(pattern, sentence);
    if m > 0 {
        let rest = sentence.drop_last();
        let n = sentence.len() - 1;
        assert(idx[m - 1] < sentence.len());
        if idx[m - 1] == n {
            let shorter = idx.take(m - 1);
            assert forall|k: int| 0 <= k < shorter.len() implies 0 <= #[trigger] shorter[k]
                < rest.len() && rest[shorter[k]] == pattern.take(m - 1)[k] by {
                assert(idx[k] < idx[m - 1]);
                assert(shorter[k] == idx[k]);
            }
            assert forall|k: int, l: int| 0 <= k < l < shorter.len() implies #[trigger] shorter[k]
                < #[trigger] shorter[l] by {
                assert(shorter[k] == idx[k] && shorter[l] == idx[l]);
            }
            lemma_greedy_complete(pattern, rest, shorter, m - 1);
            lemma_greedy_bounds(pattern, rest);
            assert(sentence.last() == pattern[m - 1]);
        } else {
            assert forall|k: int| 0 <= k < idx.len() implies 0 <= #[trigger] idx[k] < rest.len()
                && rest[idx[k]] == pattern.take(m)[k] by {
                if k < m - 1 {
                    assert(idx[k] < idx[m - 1]);
                }
            }
            lemma_greedy_complete(pattern, rest, idx, m);
        }
    }
}

/// The scan matches the whole pattern exactly when the pattern occurs in order.
pub proof fn lemma_greedy_matches_iff_occurs(pattern: Seq<u32>, sentence: Seq<u32>)
    ensures
        (greedy_matched(pattern, sentence) == pattern.len()) <==> occurs_in_order(
            pattern,
            sentence,
        ),
{
    assert(pattern.take(pattern.len() as int) =~= pattern);
    let idx = lemma_greedy_sound(pattern, sentence);
    if greedy_matched(pattern, sentence) == pattern.len() {
        assert(is_embedding(idx, pattern, sentence));
    }
    if occurs_in_order(pattern, sentence) {
        let w = choose|w: Seq<int>| is_embedding(w, pattern, sentence);
        lemma_greedy_complete(pattern, sentence, w, pattern.len() as int);
    }
}

/// The empty pattern occurs in every sentence; no other pattern occurs in
/// the empty sentence.
pub proof fn lemma_occurs_base(pattern: Seq<u32>, sentence: Seq<u32>)
    ensures
        occurs_in_order(Seq::empty(), sentence),
        pattern.len() > 0 ==> !occurs_in_order(pattern, Seq::empty()),
{
    assert(is_embedding(Seq::empty(), Seq::empty(), sentence));
    let e = Seq::<u32>::empty();
    if pattern.len() > 0 && occurs_in_order(pattern, e) {
        let idx = choose|idx: Seq<int>| is_embedding(idx, pattern, e);
        assert(idx.len() > 0);
        assert(0 <= idx[0] < e.len());
    }
}

/// Extending both by one symbol: `p + [x]` occurs in `s + [y]` exactly when
/// either the last symbols agree and `p` occurs in `s`, or `p + [x]` already
/// occurs in `s`. With the base cases this decides every pattern and sentence.
pub proof fn lemma_occurs_step(pattern: Seq<u32>, x: u32, sentence: Seq<u32>, y: u32)
    ensures
        occurs_in_order(pattern.push(x), sentence.push(y)) <==> (x == y && occurs_in_order(
            pattern,
            sentence,
        )) || occurs_in_order(pattern.push(x), sentence),
{
    let p1 = pattern.push(x);
    let s1 = sentence.push(y);
    let n = sentence.len() as int;
    if x == y && occurs_in_order(pattern, sentence) {
        let idx = choose|idx: Seq<int>| is_embedding(idx, pattern, sentence);
        let w = idx.push(n);
        assert forall|k: int| 0 <= k < w.len() implies 0 <= #[trigger] w[k] < s1.len() && s1[w[k]]
            == p1[k] by {
            if k < pattern.len() {
                assert(w[k] == idx[k]);
            }
        }
        assert forall|k: int, l: int| 0 <= k < l < w.len() implies #[trigger] w[k] < #[trigger] w[l] by {
            assert(w[k] == idx[k]);
            if l < pattern.len() {
                assert(w[l] == idx[l]);
            }
        }
        assert(is_embedding(w, p1, s1));
    }
    if occurs_in_order(p1, sentence) {
        let idx = choose|idx: Seq<int>| is_embedding(idx, p1, sentence);
        assert forall|k: int| 0 <= k < idx.len() implies 0 <= #[trigger] idx[k] < s1.len() && s1[idx[k]]
            == p1[k] by {
            assert(s1[idx[k]] == sentence[idx[k]]);
        }
        assert(is_embedding(idx, p1, s1));
    }
    if occurs_in_order(p1, s1) {
        let idx = choose|idx: Seq<int>| is_embedding(idx, p1, s1);
        let m = pattern.len() as int;
        if idx[m] == n {
            let w = idx.drop_last();
            assert forall|k: int| 0 <= k < w.len() implies 0 <= #[trigger] w[k] < sentence.len()
                && sentence[w[k]] == pattern[k] by {
                assert(idx[k] < idx[m]);
                assert(w[k] == idx[k]);
                assert(s1[idx[k]] == sentence[idx[k]]);
                assert(p1[k] == pattern[k]);
            }
            assert forall|k: int, l: int| 0 <= k < l < w.len() implies #[trigger] w[k]
                < #[trigger] w[l] by {
                assert(w[k] == idx[k] && w[l] == idx[l]);
            }
            assert(is_embedding(w, pattern, sentence));
            assert(s1[n] == y && p1[m] == x);
        } else {
            assert forall|k: int| 0 <= k < idx.len() implies 0 <= #[trigger] idx[k] < sentence.len()
                && sentence[idx[k]] == p1[k] by {
                if k < m {
                    assert(idx[k] < idx[m]);
                }
                assert(s1[idx[k]] == sentence[idx[k]]);
            }
            assert(is_embedding(idx, p1, sentence));
        }
    }
}

/// Whether `pattern` occurs in `sentence` in order, with gaps allowed.
pub fn is_subsequence(pattern: &[u32], sentence: &[u32]) -> (found: bool)
    ensures
        found == occurs_in_order(pattern@, sentence@),
{
    let mut pat_idx: usize = 0;
    let mut i: usize = 0;
    while i < sentence.len()
        invariant
            i <= sentence@.len(),
            pat_idx == greedy_matched(pattern@, sentence@.take(i as int)),
            pat_idx <= pattern@.len(),
        decreases sentence.len() - i,
    {
        let sym = sentence[i];
        assert(sentence@.take(i + 1).drop_last() =~= sentence@.take(i as int));
        if pat_idx < pattern.len() && sym == pattern[pat_idx] {
            pat_idx = pat_idx + 1;
        }
        i = i + 1;
        proof {
            lemma_greedy_bounds(pattern@, sentence@.take(i as int));
        }
    }
    proof {
        assert(sentence@.take(i as int) =~= sentence@);
        lemma_greedy_matches_iff_occurs(pattern@, sentence@);
    }
    pat_idx == pattern.len()
}

} // verus!
