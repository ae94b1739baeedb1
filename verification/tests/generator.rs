use spma_retrieval::grammar;
use spma_retrieval::lcg::{embedding_states, lcg_next, LCG_INCREMENT};
use spma_retrieval::small_grammar;

fn words(s: &[&str]) -> Vec<String> {
    s.iter().map(|w| w.to_string()).collect()
}

#[test]
fn lcg_next_from_corpus_seed() {
    assert_eq!(lcg_next(42), 10481999410520546993);
}

#[test]
fn lcg_next_from_zero_is_increment() {
    assert_eq!(lcg_next(0), LCG_INCREMENT);
    assert_eq!(lcg_next(0), 1442695040888963407);
}

#[test]
fn lcg_next_wraps_around() {
    assert_eq!(lcg_next(u64::MAX), 13525302890751722018);
}

#[test]
fn embedding_states_follow_the_seed() {
    assert_eq!(
        embedding_states(0, 3),
        vec![8963592765199298360, 2669886397722105383, 10827694766421262122]
    );
    // seed + 1 wraps to 0, so the stream starts from 0
    assert_eq!(embedding_states(u64::MAX, 2), vec![1442695040888963407, 1876011003808476466]);
    assert!(embedding_states(7, 0).is_empty());
}

#[test]
fn generate_sentences_first_three() {
    let s = grammar::generate_sentences(3);
    assert_eq!(s.len(), 3);
    assert_eq!(s[0], words(&["a", "cat", "climbed", "the", "cat"]));
    assert_eq!(s[1], words(&["the", "mat", "saw", "a", "bird"]));
    assert_eq!(s[2], words(&["a", "mat", "chased", "the", "dog"]));
}

#[test]
fn generate_sentences_test_split_matches_spot_checks() {
    let s = grammar::generate_sentences(200);
    let test = &s[150..];
    assert_eq!(test.len(), 50);
    assert_eq!(test[0], words(&["a", "cat", "chased", "the", "dog"]));
    assert_eq!(test[1], words(&["the", "cat", "sat", "a", "cat"]));
    assert_eq!(test[2], words(&["a", "cat", "climbed", "the", "mat"]));
}

#[test]
fn generate_sentences_is_prefix_stable() {
    let short = grammar::generate_sentences(10);
    let long = grammar::generate_sentences(20);
    assert_eq!(&long[..10], &short[..]);
    assert!(grammar::generate_sentences(0).is_empty());
}

#[test]
fn generate_sentences_uses_vocabulary() {
    let dets = ["the", "a"];
    let nouns = ["cat", "dog", "mat", "bird", "tree"];
    let verbs = ["sat", "chased", "saw", "climbed"];
    for s in grammar::generate_sentences(100) {
        assert_eq!(s.len(), 5);
        assert!(dets.contains(&s[0].as_str()) && dets.contains(&s[3].as_str()));
        assert!(nouns.contains(&s[1].as_str()) && nouns.contains(&s[4].as_str()));
        assert!(verbs.contains(&s[2].as_str()));
    }
}

#[test]
fn small_generate_sentences_first_three() {
    let s = small_grammar::generate_sentences(3);
    assert_eq!(s[0], words(&["a", "mat", "chased", "the", "mat"]));
    assert_eq!(s[1], words(&["the", "mat", "sat", "a", "dog"]));
    assert_eq!(s[2], words(&["a", "cat", "chased", "the", "cat"]));
}

#[test]
fn small_generate_sentences_uses_small_vocabulary() {
    for s in small_grammar::generate_sentences(200) {
        assert!(["cat", "dog", "mat"].contains(&s[1].as_str()));
        assert!(["cat", "dog", "mat"].contains(&s[4].as_str()));
        assert!(["sat", "chased"].contains(&s[2].as_str()));
    }
}

#[test]
fn embedding_states_continue_one_generator_stream() {
    // every state is one generator step after the one before it
    let states = embedding_states(3, 6);
    for w in states.windows(2) {
        assert_eq!(lcg_next(w[0]), w[1]);
    }
    // a longer stream starts with the shorter one
    assert_eq!(&embedding_states(3, 10)[..6], &states[..]);
}
