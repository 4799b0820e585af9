use nova_desktop::embed::{
    corpus_text, known_word_indices, prepare_embeddings, tier_dims, tokenize, trained_result,
    training_epochs, word_index, word_pairs, FactInput,
};
use nova_desktop::text::hashed_counts;
use nova_desktop::vocab::build_vocab;

fn strings(ws: &[&str]) -> Vec<String> {
    ws.iter().map(|w| w.to_string()).collect()
}

fn fact(q: &str, a: &str) -> FactInput {
    FactInput { topic: String::new(), question: q.to_string(), answer: a.to_string() }
}

#[test]
fn embedding_tier_dims() {
    assert_eq!(tier_dims("standard"), (32, 700));
    assert_eq!(tier_dims("large"), (64, 1500));
    assert_eq!(tier_dims("ultra"), (96, 3000));
}

#[test]
fn corpus_separates_with_spaces() {
    assert_eq!(corpus_text(&vec![fact("A?", "B.")]), "A? B. ");
    assert_eq!(tokenize(&corpus_text(&vec![fact("A?", "B.")])), strings(&["a", "b"]));
}

#[test]
fn pairs_join_words_within_two_places() {
    let tokens = strings(&["a", "b", "c", "d"]);
    let vocab = strings(&["a", "b", "c"]);
    let pairs = word_pairs(&tokens, &vocab);
    assert_eq!(
        pairs,
        vec![(0, 1), (0, 2), (1, 0), (1, 2), (2, 0), (2, 1)]
    );
}

#[test]
fn not_enough_words_for_embeddings() {
    match prepare_embeddings(&vec![fact("one two", "three")], "large") {
        Err(r) => {
            assert!(!r.trained);
            assert_eq!((r.vocab_size, r.dim, r.pairs_trained), (0, 0, 0));
        }
        Ok(_) => panic!("too little text"),
    }
}

#[test]
fn embedding_training_set() {
    let facts: Vec<FactInput> = (0..20).map(|_| fact("the car drives", "on the road")).collect();
    let set = prepare_embeddings(&facts, "standard").expect("enough words");
    assert_eq!(set.dim, 32);
    assert_eq!(set.vocab[0], "the");
    assert_eq!(set.vocab.len(), 5);
    // 120 words, every one in the vocabulary: each has 4 neighbours except at the ends.
    assert_eq!(set.pairs.len(), 120 * 4 - 6);
}

#[test]
fn epochs_for_embeddings() {
    assert_eq!(training_epochs(0), 12);
    assert_eq!(training_epochs(5000), 6);
    assert_eq!(training_epochs(40000), 4);
}

#[test]
fn lookups() {
    let vocab = strings(&["car", "road", "drives"]);
    assert_eq!(known_word_indices(&vocab, "The Car, on the ROAD!"), vec![0, 1]);
    assert!(known_word_indices(&vocab, "nothing here").is_empty());
    assert_eq!(word_index(&vocab, "Road"), Some(1));
    assert_eq!(word_index(&vocab, "boat"), None);
}

#[test]
fn embedding_message() {
    let r = trained_result(32, 500, 12345);
    assert_eq!(
        r.message,
        "Trained 32-dimensional embeddings for 500 words from 12345 word-pairs — Nova can now match meaning, not just exact words."
    );
}

#[test]
fn vocabulary_orders_by_frequency_and_caps() {
    let tokens = strings(&["b", "a", "a", "c", "b", "a", "d"]);
    assert_eq!(build_vocab(&tokens, 10), strings(&["a", "b", "c", "d"]));
    assert_eq!(build_vocab(&tokens, 2), strings(&["a", "b"]));
    assert!(build_vocab(&tokens, 0).is_empty());
    assert!(build_vocab(&Vec::new(), 5).is_empty());
}

#[test]
fn hashed_counts_bucket_words() {
    let words = strings(&["a", "a", "ab"]);
    let c = hashed_counts(&words, 1000);
    assert_eq!(c.len(), 1000);
    assert_eq!(c[97], 2);
    assert_eq!(c[805], 1);
    assert_eq!(c.iter().sum::<usize>(), 3);
}
