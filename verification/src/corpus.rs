//! The synthetic corpus: sentences of the shape `det noun verb det noun`
//! (S -> NP VP, NP -> det noun, VP -> verb NP) whose words are drawn from a
//! generator seeded with a fixed value, so that every run sees the same corpus.
use crate::lcg::{lcg_iterate, lcg_next};
use vstd::prelude::*;

verus! {

/// Seed of the corpus generator.
pub const CORPUS_SEED: u64 = 42;

/// Number of words in every generated sentence.
pub const SENTENCE_LEN: usize = 5;

/// Determiner with the given index: `the`, `a`.
pub open spec fn det_word(i: int) -> Seq<char> {
    if i == 0 {
        "the"@
    } else {
        "a"@
    }
}

/// Noun with the given index: `cat`, `dog`, `mat`, `bird`, `tree`.
pub open spec fn noun_word(i: int) -> Seq<char> {
    if i == 0 {
        "cat"@
    } else if i == 1 {
        "dog"@
    } else if i == 2 {
        "mat"@
    } else if i == 3 {
        "bird"@
    } else {
        "tree"@
    }
}

/// Verb with the given index: `sat`, `chased`, `saw`, `climbed`.
pub open spec fn verb_word(i: int) -> Seq<char> {
    if i == 0 {
        "sat"@
    } else if i == 1 {
        "chased"@
    } else if i == 2 {
        "saw"@
    } else {
        "climbed"@
    }
}

/// Generator state after `k` steps from the corpus seed.
pub open spec fn corpus_state(k: nat) -> u64 {
    lcg_iterate(CORPUS_SEED, k)
}

/// Sentence `i` of a corpus whose noun list is cut to its first `nouns`
/// entries and whose verb list to its first `verbs`: its five words are
/// chosen by the five generator states that follow the `5 * i` states used
/// by the sentences before it.
pub open spec fn sentence(i: nat, nouns: nat, verbs: nat) -> Seq<Seq<char>> {
    let b = 5 * i;
    seq![
        det_word((corpus_state(b + 1) as int) % 2),
        noun_word((corpus_state(b + 2) as int) % (nouns as int)),
        verb_word((corpus_state(b + 3) as int) % (verbs as int)),
        det_word((corpus_state(b + 4) as int) % 2),
        noun_word((corpus_state(b + 5) as int) % (nouns as int)),
    ]
}

/// The words of a sentence as character sequences.
pub open spec fn words_view(words: Vec<String>) -> Seq<Seq<char>> {
    words@.map_values(|w: String| w@)
}

/// The first `n` sentences of the corpus with the given vocabulary sizes.
pub open spec fn corpus_sentences(n: nat, nouns: nat, verbs: nat) -> Seq<Seq<Seq<char>>> {
    Seq::new(n, |i: int| sentence(i as nat, nouns, verbs))
}

/// A generated corpus is this many sentences of the corpus with these vocabulary sizes.
pub open spec fn is_corpus(
    sentences: Seq<Vec<String>>,
    n: nat,
    nouns: nat,
    verbs: nat,
) -> bool {
    &&& sentences.len() == n
    &&& forall|i: int|
        0 <= i < n ==> words_view(#[trigger] sentences[i]) == sentence(i as nat, nouns, verbs)
}

fn det(i: u64) -> (w: &'static str)
    requires
        i < 2,
    ensures
        w@ == det_word(i as int),
{
    if i == 0 {
        "the"
    } else {
        "a"
    }
}

fn noun(i: u64) -> (w: &'static str)
    requires
        i < 5,
    ensures
        w@ == noun_word(i as int),
{
    if i == 0 {
        "cat"
    } else if i == 1 {
        "dog"
    } else if i == 2 {
        "mat"
    } else if i == 3 {
        "bird"
    } else {
        "tree"
    }
}

fn verb(i: u64) -> (w: &'static str)
    requires
        i < 4,
    ensures
        w@ == verb_word(i as int),
{
    if i == 0 {
        "sat"
    } else if i == 1 {
        "chased"
    } else if i == 2 {
        "saw"
    } else {
        "climbed"
    }
}

/// Generates `n` sentences over the first `nouns` nouns and `verbs` verbs.
pub(crate) fn generate_corpus(n: usize, nouns: u64, verbs: u64) -> (sentences: Vec<Vec<String>>)
    requires
        1 <= nouns <= 5,
        1 <= verbs <= 4,
    ensures
        is_corpus(sentences@, n as nat, nouns as nat, verbs as nat),
{
    let mut state: u64 = CORPUS_SEED;
    let mut sentences: Vec<Vec<String>> = Vec::with_capacity(n);
    let mut i: usize = 0;
    while i < n
        invariant
            i <= n,
            1 <= nouns <= 5,
            1 <= verbs <= 4,
            state == corpus_state(5 * i as nat),
            is_corpus(sentences@, i as nat, nouns as nat, verbs as nat),
        decreases n - i,
    {
        let ghost b: nat = 5 * i as nat;
        state = lcg_next(state);
        assert(state == corpus_state(b + 1));
        let det1 = det(state % 2);
        state = lcg_next(state);
        assert(state == corpus_state(b + 2));
        let noun1 = noun(state % nouns);
        state = lcg_next(state);
        assert(state == corpus_state(b + 3));
        let verb1 = verb(state % verbs);
        state = lcg_next(state);
        assert(state == corpus_state(b + 4));
        let det2 = det(state % 2);
        state = lcg_next(state);
        assert(state == corpus_state(b + 5));
        let noun2 = noun(state % nouns);
        let words = vec![
            det1.to_owned(),
            noun1.to_owned(),
            verb1.to_owned(),
            det2.to_owned(),
            noun2.to_owned(),
        ];
        assert(words_view(words) =~= sentence(i as nat, nouns as nat, verbs as nat));
        sentences.push(words);
        i = i + 1;
        assert(5 * i as nat == b + 5);
    }
    sentences
}

/// Sentence `i` does not depend on how many sentences are generated: a
/// shorter corpus is a prefix of a longer one with the same vocabulary.
pub proof fn lemma_corpus_prefix(
    short: Seq<Vec<String>>,
    long: Seq<Vec<String>>,
    n: nat,
    m: nat,
    nouns: nat,
    verbs: nat,
)
    requires
        n <= m,
        is_corpus(short, n, nouns, verbs),
        is_corpus(long, m, nouns, verbs),
    ensures
        forall|i: int| 0 <= i < n ==> words_view(#[trigger] short[i]) == words_view(long[i]),
{
}

/// Every sentence has the shape `det noun verb det noun`, each word taken
/// from the vocabulary cut to `nouns` nouns and `verbs` verbs.
pub proof fn lemma_sentence_shape(i: nat, nouns: nat, verbs: nat)
    requires
        1 <= nouns <= 5,
        1 <= verbs <= 4,
    ensures
        sentence(i, nouns, verbs).len() == SENTENCE_LEN,
        exists|k: int| 0 <= k < 2 && sentence(i, nouns, verbs)[0] == #[trigger] det_word(k),
        exists|k: int| 0 <= k < nouns && sentence(i, nouns, verbs)[1] == #[trigger] noun_word(k),
        exists|k: int| 0 <= k < verbs && sentence(i, nouns, verbs)[2] == #[trigger] verb_word(k),
        exists|k: int| 0 <= k < 2 && sentence(i, nouns, verbs)[3] == #[trigger] det_word(k),
        exists|k: int| 0 <= k < nouns && sentence(i, nouns, verbs)[4] == #[trigger] noun_word(k),
{
    let b = 5 * i;
    let s = sentence(i, nouns, verbs);
    assert(s[0] == det_word((corpus_state(b + 1) as int) % 2));
    assert(s[1] == noun_word((corpus_state(b + 2) as int) % (nouns as int)));
    assert(s[2] == verb_word((corpus_state(b + 3) as int) % (verbs as int)));
    assert(s[3] == det_word((corpus_state(b + 4) as int) % 2));
    assert(s[4] == noun_word((corpus_state(b + 5) as int) % (nouns as int)));
}

/// The vocabulary: determiners `the`, `a`; nouns `cat`, `dog`, `mat`,
/// `bird`, `tree`; verbs `sat`, `chased`, `saw`, `climbed`, in this index
/// order, with no word repeated within a list.
pub proof fn lemma_vocabulary()
    ensures
        Seq::new(2, |i: int| det_word(i)) == seq!["the"@, "a"@],
        Seq::new(5, |i: int| noun_word(i)) == seq!["cat"@, "dog"@, "mat"@, "bird"@, "tree"@],
        Seq::new(4, |i: int| verb_word(i)) == seq!["sat"@, "chased"@, "saw"@, "climbed"@],
        Seq::new(2, |i: int| det_word(i)).no_duplicates(),
        Seq::new(5, |i: int| noun_word(i)).no_duplicates(),
        Seq::new(4, |i: int| verb_word(i)).no_duplicates(),
{
    reveal_strlit("the");
    reveal_strlit("a");
    reveal_strlit("cat");
    reveal_strlit("dog");
    reveal_strlit("mat");
    reveal_strlit("bird");
    reveal_strlit("tree");
    reveal_strlit("sat");
    reveal_strlit("chased");
    reveal_strlit("saw");
    reveal_strlit("climbed");
    let dets = Seq::new(2, |i: int| det_word(i));
    let nouns = Seq::new(5, |i: int| noun_word(i));
    let verbs = Seq::new(4, |i: int| verb_word(i));
    assert(dets =~= seq!["the"@, "a"@]);
    assert(nouns =~= seq!["cat"@, "dog"@, "mat"@, "bird"@, "tree"@]);
    assert(verbs =~= seq!["sat"@, "chased"@, "saw"@, "climbed"@]);
    // words of a list differ in length or in one letter
    assert forall|i: int, j: int| 0 <= i < dets.len() && 0 <= j < dets.len() && i != j implies dets[i]
        != dets[j] by {
        assert(dets[i].len() != dets[j].len());
    }
    assert forall|i: int, j: int| 0 <= i < nouns.len() && 0 <= j < nouns.len() && i != j implies nouns[i]
        != nouns[j] by {
        if nouns[i].len() == nouns[j].len() {
            assert(nouns[i][0] != nouns[j][0]);
        }
    }
    assert forall|i: int, j: int| 0 <= i < verbs.len() && 0 <= j < verbs.len() && i != j implies verbs[i]
        != verbs[j] by {
        if verbs[i].len() == verbs[j].len() {
            assert(verbs[i][2] != verbs[j][2]);
        }
    }
}

} // verus!
