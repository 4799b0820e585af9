use nova_desktop::gen::{generated_word, sentence_break, 
    corpus_text, finish_text, prepare_generator, seed_word, tier_dims, top_k, trained_result,
    training_epochs, FactInput, CONTEXT_WORDS,
};

fn fact(q: &str, a: &str) -> FactInput {
    FactInput { topic: "t".to_string(), question: q.to_string(), answer: a.to_string() }
}

fn strings(ws: &[&str]) -> Vec<String> {
    ws.iter().map(|w| w.to_string()).collect()
}

#[test]
fn generator_tier_dims() {
    assert_eq!(tier_dims("standard"), (512, 256, 128, 600));
    assert_eq!(tier_dims("large"), (1024, 512, 256, 1200));
    assert_eq!(tier_dims("ultra"), (2048, 1024, 512, 2500));
}

#[test]
fn corpus_joins_questions_and_answers_with_periods() {
    let facts = vec![fact("Why?", "Because"), fact("How", "So")];
    assert_eq!(corpus_text(&facts), "Why?. Because. How. So. ");
}

#[test]
fn not_enough_words() {
    let facts = vec![fact("A short question", "and a short answer")];
    match prepare_generator(&facts, "standard") {
        Err(r) => {
            assert!(!r.trained);
            assert_eq!(r.trained_on_words, 7);
            assert_eq!(r.vocab_size, 0);
            assert_eq!(r.sample, "");
            assert_eq!(
                r.message,
                "Not enough reading material yet — teach Nova more, or run a Deep Study, then try again."
            );
        }
        Ok(_) => panic!("should not train on seven words"),
    }
}

#[test]
fn training_set_from_enough_words() {
    let facts: Vec<FactInput> = (0..30)
        .map(|i| fact(&format!("what is item {}", i % 3), "it is a small thing"))
        .collect();
    let set = prepare_generator(&facts, "standard").expect("enough words");
    assert_eq!((set.dim, set.h1, set.h2), (512, 256, 128));
    // Each fact reads "what is item N. it is a small thing." = 9 words.
    assert_eq!(set.tokens.len(), 270);
    assert_eq!(&set.tokens[0..9], &strings(&["what", "is", "item", "0.", "it", "is", "a", "small", "thing."])[..]);
    // "is" occurs twice per fact, the rest once or per-index.
    assert_eq!(set.vocab[0], "is");
    assert_eq!(set.vocab.len(), 10);
    // Every position from 3 on has a vocabulary word (all words fit in the cap).
    assert_eq!(set.samples.len(), 267);
    assert_eq!(set.samples[0].tokens, strings(&["what", "is", "item"]));
    assert_eq!(set.vocab[set.samples[0].label], "0.");
}

#[test]
fn vocabulary_ties_keep_first_appearance() {
    // 220 words: "b" 20 times, then 100 "x y" pairs; x and y tie, x first.
    let mut q = String::new();
    for _ in 0..20 {
        q.push_str("b ");
    }
    for _ in 0..100 {
        q.push_str("x y ");
    }
    let facts = vec![fact(&q, "")];
    let set = prepare_generator(&facts, "standard").expect("enough words");
    assert_eq!(set.vocab[0], "x");
    assert_eq!(set.vocab[1], "y");
    assert_eq!(set.vocab[2], "b");
}

#[test]
fn epochs_and_top_k() {
    assert_eq!(training_epochs(0), 20);
    assert_eq!(training_epochs(4000), 10);
    assert_eq!(training_epochs(20000), 6);
    assert_eq!(top_k(10), 5);
    assert_eq!(top_k(240), 20);
    assert_eq!(top_k(2500), 40);
    assert_eq!(CONTEXT_WORDS, 3);
}

#[test]
fn seed_word_is_lowercased_and_must_be_known() {
    let vocab = strings(&["cat", "dog"]);
    assert_eq!(seed_word(Some("Cat"), &vocab), Some("cat".to_string()));
    assert_eq!(seed_word(Some("cow"), &vocab), None);
    assert_eq!(seed_word(None, &vocab), None);
}

#[test]
fn finishing_capitalizes_sentences_and_ends_with_a_period() {
    let words = strings(&["the", "cat", "sat.", "then", "it", "slept"]);
    assert_eq!(finish_text(&words), "The cat sat. Then it slept.");
    let words = strings(&["hello", ".", "world."]);
    assert_eq!(finish_text(&words), "Hello. World.");
    let words = strings(&["élan", "vital."]);
    assert_eq!(finish_text(&words), "élan vital.");
    assert_eq!(finish_text(&Vec::new()), ".");
}

#[test]
fn generator_message() {
    let r = trained_result(123, 45, 678, "Sample.".to_string());
    assert!(r.trained);
    assert_eq!(r.sample, "Sample.");
    assert_eq!(
        r.message,
        "Trained a native generator: 123 parameters, 45-word vocabulary, 3-word context window, learned from 678 words Nova has read."
    );
}

#[test]
fn generated_words_close_sentences_at_breaks() {
    let vocab = strings(&["cat", "dog"]);
    assert_eq!(generated_word(&vocab, 1, 9, 10, 40), ("dog.".to_string(), true));
    assert_eq!(generated_word(&vocab, 0, 8, 10, 40), ("cat".to_string(), false));
    // The last step never closes a sentence.
    assert_eq!(generated_word(&vocab, 0, 9, 10, 10), ("cat".to_string(), false));
    assert_eq!(sentence_break(0, 3), 13);
    assert_eq!(sentence_break(14, 5), 29);
    for gap in 0..6 {
        let b = sentence_break(7, gap);
        assert!(17 <= b && b <= 22);
    }
}
