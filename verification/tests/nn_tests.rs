use nova_desktop::net::param_count;
use nova_desktop::nn::{
    graded_indices, prepare_training, tier_dims, trained_result, training_epochs, untrained_result,
    FactInput, Rng,
};

fn fact(topic: &str, q: &str, a: &str) -> FactInput {
    FactInput { topic: topic.to_string(), question: q.to_string(), answer: a.to_string() }
}

#[test]
fn tier_dims_by_size_mode() {
    assert_eq!(tier_dims("standard"), (2048, 512, 256));
    assert_eq!(tier_dims("large"), (4096, 1024, 512));
    assert_eq!(tier_dims("ultra"), (8192, 2048, 1024));
    assert_eq!(tier_dims("anything else"), (2048, 512, 256));
    assert_eq!(tier_dims("Large"), (2048, 512, 256));
}

#[test]
fn param_counts_match_the_documented_sizes() {
    // "standard" with 2 topics: about 1.2M parameters.
    assert_eq!(param_count(2048, 512, 256, 2), 1_180_930);
    // "large" with 2 topics: about 4.7M.
    assert_eq!(param_count(4096, 1024, 512, 2), 4_721_154);
    // "ultra" with 2 topics: about 19M.
    assert_eq!(param_count(8192, 2048, 1024, 2), 18_879_490);
}

#[test]
fn epochs_are_clamped() {
    assert_eq!(training_epochs(0), 28);
    assert_eq!(training_epochs(1), 28);
    assert_eq!(training_epochs(3000), 20);
    assert_eq!(training_epochs(6000), 10);
    assert_eq!(training_epochs(100000), 10);
}

#[test]
fn graded_indices_sample_large_sets() {
    assert_eq!(graded_indices(5), vec![0, 1, 2, 3, 4]);
    assert_eq!(graded_indices(300).len(), 300);
    let g = graded_indices(601);
    // step = 601 / 300 = 2: 0, 2, ..., 600
    assert_eq!(g.len(), 301);
    assert_eq!(g[1], 2);
    assert_eq!(*g.last().unwrap(), 600);
    assert!(graded_indices(0).is_empty());
}

#[test]
fn too_few_topics_gives_no_training_set() {
    let facts: Vec<FactInput> = (0..12).map(|i| fact("cats", &format!("q{}", i), "a")).collect();
    assert!(prepare_training(&facts).is_none());
}

#[test]
fn too_few_facts_gives_no_training_set() {
    let facts = vec![
        fact("cats", "q1", "a"),
        fact("cats", "q2", "a"),
        fact("dogs", "q3", "a"),
        fact("dogs", "q4", "a"),
        fact("birds", "q5", "a"),
    ];
    assert!(prepare_training(&facts).is_none());
}

#[test]
fn classes_are_sorted_topics_with_two_or_more_facts() {
    let mut facts = Vec::new();
    for i in 0..6 {
        facts.push(fact("zebra", &format!("Where do zebras {} live?", i), "In Africa, on grassy plains."));
    }
    for i in 0..5 {
        facts.push(fact("apple", &format!("What colors are apples {}?", i), "Red, green and yellow."));
    }
    facts.push(fact("lonely", "only one fact here", "so it is dropped"));
    let ts = prepare_training(&facts).expect("enough to train");
    assert_eq!(ts.classes, vec!["apple".to_string(), "zebra".to_string()]);
    assert_eq!(ts.total, 11);
    assert_eq!(ts.samples.len(), 11);
    // The apple samples come first, labelled 0.
    assert_eq!(ts.samples[0].label, 0);
    assert_eq!(ts.samples[0].tokens, vec!["color", "apple", "0", "red", "green", "yellow"]);
    assert_eq!(ts.samples[5].label, 1);
    assert_eq!(ts.samples[5].tokens, vec!["where", "zebra", "0", "live", "africa", "grassy", "plain"]);
}

#[test]
fn samples_are_capped_per_topic_and_answers_cut_at_120_chars() {
    let long_answer = "x".repeat(200);
    let mut facts = Vec::new();
    for i in 0..250 {
        facts.push(fact("big", &format!("q{}", i), &long_answer));
    }
    facts.push(fact("small", "q", "a"));
    facts.push(fact("small", "q", "a"));
    let ts = prepare_training(&facts).expect("enough to train");
    assert_eq!(ts.total, 252);
    assert_eq!(ts.samples.len(), 202);
    assert_eq!(ts.samples[0].tokens, vec!["q0".to_string(), "x".repeat(120)]);
    assert_eq!(ts.samples[199].tokens[0], "q199");
    assert_eq!(ts.samples[200].label, 1);
}

#[test]
fn result_messages() {
    let r = untrained_result();
    assert!(!r.trained);
    assert_eq!(r.message, "Need at least 2 topics with a few facts each before training.");
    let r = trained_result(1_180_930, 2048, 512, 256, 2, 87, 42);
    assert!(r.trained);
    assert_eq!(r.accuracy, 87);
    assert_eq!(
        r.message,
        "Trained a native network: 1180930 parameters (2048 inputs -> 512 -> 256 -> 2 topics), 87% self-test accuracy on 42 facts."
    );
}

fn xorshift(mut x: u64) -> u64 {
    x ^= x << 13;
    x ^= x >> 7;
    x ^= x << 17;
    x
}

#[test]
fn rng_is_xorshift_and_never_stuck_at_zero() {
    let mut r = Rng::new(0);
    let mut x: u64 = 0x9E3779B97F4A7C15;
    for _ in 0..1000 {
        x = xorshift(x);
        let v = r.next_raw();
        assert_eq!(v, x % 1_000_000);
        assert!(v < 1_000_000);
        assert_ne!(x, 0);
    }
    let mut a = Rng::new(0xC0FFEE ^ 11);
    let mut b = Rng::new(0xC0FFEE ^ 11);
    for _ in 0..10 {
        assert_eq!(a.next_raw(), b.next_raw());
    }
}

#[test]
fn classes_follow_code_point_order() {
    let mut facts = Vec::new();
    for t in ["Äpfel", "apple", "Zebra", "apple", "Zebra", "Äpfel", "app", "app"] {
        facts.push(fact(t, "some question", "some answer"));
    }
    for _ in 0..4 {
        facts.push(fact("apple", "more", "facts"));
    }
    let ts = prepare_training(&facts).expect("enough to train");
    assert_eq!(ts.classes, vec!["Zebra", "app", "apple", "Äpfel"]);
    assert_eq!(ts.total, 12);
}

#[test]
fn keyword_bag_ignores_order_case_and_stop_words() {
    let a = nova_desktop::nn::keyword_bag("Orbit of the Moon?", 2048).expect("has keywords");
    let b = nova_desktop::nn::keyword_bag("moon orbit", 2048).expect("has keywords");
    assert_eq!(a, b);
    assert_eq!(a.iter().sum::<usize>(), 2);
    assert!(nova_desktop::nn::keyword_bag("What is it?", 2048).is_none());
}
