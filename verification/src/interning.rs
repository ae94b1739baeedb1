//! Turning words into symbol ids with the engine's string interner.
//!
//! The interner maps each distinct word to the id it was first given; a new
//! word gets the number of words interned before it.
use crate::corpus::words_view;
use vstd::prelude::*;

verus! {

/// The engine's interner, opaque to verification; its contents are read
/// through `interned_ids` and `interned_count`.
#[verifier::external_type_specification]
#[verifier::external_body]
pub struct ExternalInterner(spma::Interner);

/// The word-to-id table held by an interner.
pub uninterp spec fn interned_ids(interner: spma::Interner) -> Map<Seq<char>, u32>;

/// The number of words an interner has handed out ids for.
pub uninterp spec fn interned_count(interner: spma::Interner) -> nat;

/// What interning one word does to a table of ids and a count.
pub open spec fn intern_step(
    state: (Map<Seq<char>, u32>, nat),
    word: Seq<char>,
) -> (Map<Seq<char>, u32>, nat) {
    if state.0.contains_key(word) {
        state
    } else {
        (state.0.insert(word, state.1 as u32), state.1 + 1)
    }
}

/// Interning the words one after another, from the left.
pub open spec fn intern_all(
    state: (Map<Seq<char>, u32>, nat),
    words: Seq<Seq<char>>,
) -> (Map<Seq<char>, u32>, nat)
    decreases words.len(),
{
    if words.len() == 0 {
        state
    } else {
        intern_step(intern_all(state, words.drop_last()), words.last())
    }
}

/// The contents of an interner as a (table, count) pair.
pub open spec fn interner_state(interner: spma::Interner) -> (Map<Seq<char>, u32>, nat) {
    (interned_ids(interner), interned_count(interner))
}

/// `spma::Interner::intern`: a word already in the table gets its id back
/// and nothing changes; a new word gets the current count as its id, is
/// added to the table, and the count grows by one. The call panics when a
/// new word arrives with the count at `u32::MAX`, which `requires` excludes.
#[verifier::external_body]
fn intern_word(interner: &mut spma::Interner, word: &str) -> (id: u32)
    requires
        interned_ids(*old(interner)).contains_key(word@) || interned_count(*old(interner))
            < u32::MAX,
    ensures
        (interned_ids(*final(interner)), interned_count(*final(interner))) == intern_step(
            (interned_ids(*old(interner)), interned_count(*old(interner))),
            word@,
        ),
        id == interned_ids(*final(interner))[word@],
{
    interner.intern(word)
}

/// Interning never shrinks the count.
proof fn lemma_intern_all_count_grows(state: (Map<Seq<char>, u32>, nat), words: Seq<Seq<char>>)
    ensures
        state.1 <= intern_all(state, words).1,
        forall|w: Seq<char>|
            state.0.contains_key(w) ==> #[trigger] intern_all(state, words).0.contains_key(w)
                && intern_all(state, words).0[w] == state.0[w],
    decreases words.len(),
{
    if words.len() > 0 {
        lemma_intern_all_count_grows(state, words.drop_last());
    }
}

/// The count after interning a prefix is at most the count after all words.
proof fn lemma_intern_prefix_count(
    state: (Map<Seq<char>, u32>, nat),
    words: Seq<Seq<char>>,
    i: int,
)
    requires
        0 <= i <= words.len(),
    ensures
        intern_all(state, words.take(i)).1 <= intern_all(state, words).1,
        forall|w: Seq<char>|
            intern_all(state, words.take(i)).0.contains_key(w) ==> #[trigger] intern_all(
                state,
                words,
            ).0.contains_key(w) && intern_all(state, words).0[w] == intern_all(
                state,
                words.take(i),
            ).0[w],
    decreases words.len() - i,
{
    if i == words.len() {
        assert(words.take(i) =~= words);
    } else {
        lemma_intern_prefix_count(state, words, i + 1);
        assert(words.take(i + 1).drop_last() =~= words.take(i));
    }
}

/// Interns every word of a sentence, in order, and returns their ids.
/// `requires` excludes the inputs on which the interner would run out of ids.
pub fn sentence_ids(interner: &mut spma::Interner, words: &Vec<String>) -> (ids: Vec<u32>)
    requires
        intern_all(interner_state(*old(interner)), words_view(*words)).1 <= u32::MAX,
    ensures
        interner_state(*final(interner)) == intern_all(
            interner_state(*old(interner)),
            words_view(*words),
        ),
        ids@.len() == words@.len(),
        forall|j: int|
            0 <= j < words@.len() ==> interned_ids(*final(interner)).contains_key(
                #[trigger] words@[j]@,
            ) && ids@[j] == interned_ids(*final(interner))[words@[j]@],
{
    let ghost start = interner_state(*interner);
    let ghost all = words_view(*words);
    let mut ids: Vec<u32> = Vec::with_capacity(words.len());
    let mut i: usize = 0;
    while i < words.len()
        invariant
            i <= words@.len(),
            all == words_view(*words),
            intern_all(start, all).1 <= u32::MAX,
            interner_state(*interner) == intern_all(start, all.take(i as int)),
            ids@.len() == i,
            forall|j: int|
                0 <= j < i ==> interned_ids(*interner).contains_key(#[trigger] all[j])
                    && ids@[j] == interned_ids(*interner)[all[j]],
        decreases words@.len() - i,
    {
        let ghost before = interner_state(*interner);
        proof {
            lemma_intern_prefix_count(start, all, i + 1);
            assert(all.take(i + 1).drop_last() =~= all.take(i as int));
            assert(all.take(i + 1).last() == all[i as int]);
        }
        let id = intern_word(interner, words[i].as_str());
        ids.push(id);
        i = i + 1;
    }
    proof {
        assert(all.take(i as int) =~= all);
        assert forall|j: int| 0 <= j < words@.len() implies interned_ids(
            *interner,
        ).contains_key(#[trigger] words@[j]@) && ids@[j] == interned_ids(*interner)[words@[j]@] by {
            assert(all[j] == words@[j]@);
        }
    }
    ids
}

/// Interning a list of words adds at most one id per word.
pub proof fn lemma_intern_count_bound(state: (Map<Seq<char>, u32>, nat), words: Seq<Seq<char>>)
    ensures
        intern_all(state, words).1 <= state.1 + words.len(),
    decreases words.len(),
{
    if words.len() > 0 {
        lemma_intern_count_bound(state, words.drop_last());
    }
}

/// A table is consistent when distinct words have distinct ids, all below the count.
pub open spec fn consistent_ids(state: (Map<Seq<char>, u32>, nat)) -> bool {
    &&& forall|w: Seq<char>| #[trigger] state.0.contains_key(w) ==> (state.0[w] as nat) < state.1
    &&& forall|v: Seq<char>, w: Seq<char>|
        #[trigger] state.0.contains_key(v) && #[trigger] state.0.contains_key(w) && v != w
            ==> state.0[v] != state.0[w]
}

/// Interning keeps a consistent table consistent: different words never share an id.
pub proof fn lemma_interning_keeps_ids_distinct(
    state: (Map<Seq<char>, u32>, nat),
    words: Seq<Seq<char>>,
)
    requires
        consistent_ids(state),
        intern_all(state, words).1 <= u32::MAX + 1,
    ensures
        consistent_ids(intern_all(state, words)),
    decreases words.len(),
{
    if words.len() > 0 {
        lemma_interning_keeps_ids_distinct(state, words.drop_last());
        lemma_intern_all_count_grows(state, words.drop_last());
    }
}

} // verus!
