use spma::Interner;
use spma_retrieval::interning::sentence_ids;

fn words(s: &[&str]) -> Vec<String> {
    s.iter().map(|w| w.to_string()).collect()
}

#[test]
fn sentence_ids_gives_new_words_consecutive_ids() {
    let mut interner = Interner::new();
    let ids = sentence_ids(&mut interner, &words(&["the", "cat", "sat", "the", "mat"]));
    assert_eq!(ids, vec![0, 1, 2, 0, 3]);
    assert_eq!(interner.len(), 4);
}

#[test]
fn sentence_ids_reuses_known_ids() {
    let mut interner = Interner::new();
    sentence_ids(&mut interner, &words(&["a", "dog"]));
    let ids = sentence_ids(&mut interner, &words(&["dog", "saw", "a", "bird"]));
    assert_eq!(ids, vec![1, 2, 0, 3]);
    assert_eq!(interner.len(), 4);
    assert_eq!(interner.name(3), "bird");
}

#[test]
fn sentence_ids_of_empty_sentence() {
    let mut interner = Interner::new();
    assert!(sentence_ids(&mut interner, &Vec::new()).is_empty());
    assert_eq!(interner.len(), 0);
}
