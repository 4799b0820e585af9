use nova_desktop::nn::{clean, hash_word, keywords, stem};
use nova_desktop::embed::tokenize;
use nova_desktop::gen::tokenize_natural;

#[test]
fn clean_lowercases_and_strips_punctuation() {
    assert_eq!(clean("What's UP, Doc?! \"Yes\"; no: maybe."), "whats up doc yes no maybe");
}

#[test]
fn generator_clean_keeps_periods() {
    assert_eq!(nova_desktop::gen::clean("Hi, there. Bye!"), "hi there. bye");
}

#[test]
fn tokenize_splits_on_any_whitespace() {
    assert_eq!(tokenize("  Hello\tWorld\n  again  "), vec!["hello", "world", "again"]);
    assert!(tokenize("   ").is_empty());
    assert_eq!(tokenize_natural("The cat. Sat!"), vec!["the", "cat.", "sat"]);
}

#[test]
fn stem_strips_plural_s_only_from_long_words() {
    assert_eq!(stem("cats"), "cat");
    assert_eq!(stem("bus"), "bus");
    assert_eq!(stem("boss"), "bos");
    assert_eq!(stem("s"), "s");
    assert_eq!(stem("dog"), "dog");
    // "és" is three bytes in UTF-8, so it is not stemmed; "éts" is four.
    assert_eq!(stem("és"), "és");
    assert_eq!(stem("éts"), "ét");
}

#[test]
fn keywords_drop_stop_words_and_stem() {
    assert_eq!(keywords("What is the capital of France?"), vec!["capital", "france"]);
    assert_eq!(keywords("Tell me about dogs and cats"), vec!["dog", "cat"]);
    assert!(keywords("what is it").is_empty());
}

#[test]
fn hash_word_is_the_rolling_hash() {
    assert_eq!(hash_word("a", 1000), 97);
    // (97 * 131 + 98) = 12805
    assert_eq!(hash_word("ab", 100000), 12805);
    assert_eq!(hash_word("ab", 1000), 805);
    assert_eq!(hash_word("", 7), 0);
    let mut h: u32 = 0;
    for b in "wrapping around u32 hash".bytes() {
        h = h.wrapping_mul(131).wrapping_add(b as u32);
    }
    assert_eq!(hash_word("wrapping around u32 hash", 2048), (h as usize) % 2048);
}

#[test]
fn clean_uses_unicode_lowercase() {
    assert_eq!(clean("ÀB Çà!"), "àb çà");
    assert_eq!(tokenize("ΑΒΓ\u{2003}δ"), vec!["αβγ", "δ"]);
}

#[test]
fn whitespace_matches_std_for_every_char() {
    for u in 0..=0x10FFFFu32 {
        if let Some(c) = char::from_u32(u) {
            assert_eq!(nova_desktop::text::is_whitespace_char(c), c.is_whitespace(), "U+{:04X}", u);
        }
    }
}

#[test]
fn joined_words_split_back() {
    let words = vec!["alpha", "beta", "gamma"];
    assert_eq!(nova_desktop::text::split_words(&words.join(" ")), words);
}
