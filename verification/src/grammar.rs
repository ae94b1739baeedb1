//! The corpus of the attention comparisons: determiners `the`, `a`; nouns
//! `cat`, `dog`, `mat`, `bird`, `tree`; verbs `sat`, `chased`, `saw`, `climbed`.
use crate::corpus::{generate_corpus, is_corpus};
use vstd::prelude::*;

verus! {

/// Number of nouns in this vocabulary.
pub const NOUN_COUNT: u64 = 5;

/// Number of verbs in this vocabulary.
pub const VERB_COUNT: u64 = 4;

/// The first `n` sentences of the corpus, each `det noun verb det noun`.
pub fn generate_sentences(n: usize) -> (sentences: Vec<Vec<String>>)
    ensures
        is_corpus(sentences@, n as nat, NOUN_COUNT as nat, VERB_COUNT as nat),
{
    generate_corpus(n, NOUN_COUNT, VERB_COUNT)
}

} // verus!
