use vstd::prelude::*;
use crate::fmt::{decimal_spec, push_decimal, push_text};
use crate::net::{epoch_count, epoch_count_spec, clamp_spec};
use crate::nn::{first_n, sample_views, Sample};
use crate::text::{push_char, join_words, chars_of, string_of, string_views, str_is, tokens_spec, tokenize_text, to_lowercase, lowercase, clean_text, clean_spec};
use crate::vocab::{lemma_vocabulary_unique, build_vocab, is_vocabulary, position_of, first_index, lemma_first_index_exists};

pub use crate::nn::FactInput;
pub use crate::rng::Rng;
pub use crate::text::hash_word;

verus! {

// ---------------------------------------------------------------------------
// Text processing for the generator
// ---------------------------------------------------------------------------

/// Lowercases `text` and removes `? ! , ; : ' "`, keeping periods.
pub fn clean(text: &str) -> (r: String)
    ensures
        r@ == clean_spec(text@, true),
{
    clean_text(text, true)
}

/// The words of `text` after cleaning (periods kept).
pub fn tokenize_natural(text: &str) -> (r: Vec<String>)
    ensures
        string_views(r@) == tokens_spec(text@, true),
        forall|i: int| 0 <= i < r@.len() ==> crate::text::is_token(#[trigger] r@[i]@, true),
{
    tokenize_text(text, true)
}

/// How many preceding words the generator predicts from.
pub const CONTEXT_WORDS: usize = 3;

/// The fewest words of reading the generator is trained on.
pub const MIN_WORDS: usize = 200;

/// The most training examples the generator uses.
pub const MAX_SAMPLES: usize = 20000;

/// `(input_dim, hidden1, hidden2, vocabulary_cap)` for a size mode.
pub open spec fn tier_dims_spec(size_mode: Seq<char>) -> (usize, usize, usize, usize) {
    if size_mode == "large"@ {
        (1024, 512, 256, 1200)
    } else if size_mode == "ultra"@ {
        (2048, 1024, 512, 2500)
    } else {
        (512, 256, 128, 600)
    }
}

/// The generator's dimensions and vocabulary cap for a size mode.
pub fn tier_dims(size_mode: &str) -> (r: (usize, usize, usize, usize))
    ensures
        r == tier_dims_spec(size_mode@),
{
    if str_is(size_mode, "large") {
        (1024, 512, 256, 1200)
    } else if str_is(size_mode, "ultra") {
        (2048, 1024, 512, 2500)
    } else {
        (512, 256, 128, 600)
    }
}

/// Everything the generator reads: each fact's question and answer, each followed by ". ".
pub open spec fn corpus(facts: Seq<FactInput>) -> Seq<char>
    decreases facts.len(),
{
    if facts.len() == 0 {
        seq![]
    } else {
        corpus(facts.drop_last()) + facts.last().question@ + ". "@ + facts.last().answer@ + ". "@
    }
}

/// The text the generator learns from.
pub fn corpus_text(facts: &Vec<FactInput>) -> (r: String)
    ensures
        r@ == corpus(facts@),
{
    let mut all = String::new();
    let n = facts.len();
    for i in 0..n
        invariant
            n == facts@.len(),
            all@ == corpus(facts@.take(i as int)),
    {
        assert(facts@.take(i + 1).drop_last() == facts@.take(i as int));
        assert(facts@.take(i + 1).last() == facts@[i as int]);
        push_text(&mut all, facts[i].question.as_str());
        push_text(&mut all, ". ");
        push_text(&mut all, facts[i].answer.as_str());
        push_text(&mut all, ". ");
    }
    assert(facts@.take(n as int) == facts@);
    all
}

// ---------------------------------------------------------------------------
// Training examples
// ---------------------------------------------------------------------------

/// The examples from the words `ws[..n]`: each word at position 3 or later that is in the
/// vocabulary, as the target, with the three words before it as the context.
pub open spec fn context_samples(ws: Seq<Seq<char>>, v: Seq<Seq<char>>, n: int) -> Seq<(Seq<Seq<char>>, nat)>
    decreases n,
{
    if n <= CONTEXT_WORDS {
        seq![]
    } else {
        let rest = context_samples(ws, v, n - 1);
        let w = ws[n - 1];
        if v.contains(w) {
            rest.push((ws.subrange(n - 1 - CONTEXT_WORDS, n - 1), first_index(v, w) as nat))
        } else {
            rest
        }
    }
}

/// The examples the generator trains on: all of them, cut at 20000.
pub open spec fn generator_samples(ws: Seq<Seq<char>>, v: Seq<Seq<char>>) -> Seq<(Seq<Seq<char>>, nat)> {
    first_n(context_samples(ws, v, ws.len() as int), MAX_SAMPLES as nat)
}

/// Every example has a three-word context and names a vocabulary word as its target, and
/// there are at most 20000 of them.
pub proof fn lemma_generator_samples(ws: Seq<Seq<char>>, v: Seq<Seq<char>>)
    ensures
        forall|i: int| 0 <= i < generator_samples(ws, v).len() ==> {
            &&& (#[trigger] generator_samples(ws, v)[i]).0.len() == CONTEXT_WORDS
            &&& generator_samples(ws, v)[i].1 < v.len()
        },
        generator_samples(ws, v).len() <= MAX_SAMPLES,
{
    lemma_context_samples(ws, v, ws.len() as int);
    let all = context_samples(ws, v, ws.len() as int);
    assert forall|i: int| 0 <= i < generator_samples(ws, v).len() implies {
        &&& (#[trigger] generator_samples(ws, v)[i]).0.len() == CONTEXT_WORDS
        &&& generator_samples(ws, v)[i].1 < v.len()
    } by {
        assert(generator_samples(ws, v)[i] == all[i]);
    }
}

/// One example for every position from the fourth word on whose word is in the vocabulary,
/// in order, and no other: the example for position `p` has the three words before it as its
/// context, whether or not those words are in the vocabulary, and the vocabulary index of the
/// word at `p` as its target. The generator trains on the first 20000 of them.
pub proof fn lemma_example_per_known_position(ws: Seq<Seq<char>>, v: Seq<Seq<char>>)
    ensures
        context_samples(ws, v, ws.len() as int) == Seq::new(
            if ws.len() > 3 { (ws.len() - 3) as nat } else { 0 },
            |k: int| k + 3,
        ).filter(|p: int| v.contains(ws[p])).map_values(
            |p: int| (ws.subrange(p - 3, p), first_index(v, ws[p]) as nat),
        ),
        generator_samples(ws, v) == (if context_samples(ws, v, ws.len() as int).len() <= 20000 {
            context_samples(ws, v, ws.len() as int)
        } else {
            context_samples(ws, v, ws.len() as int).take(20000)
        }),
{
    lemma_examples_up_to(ws, v, ws.len() as int);
}

proof fn lemma_examples_up_to(ws: Seq<Seq<char>>, v: Seq<Seq<char>>, n: int)
    ensures
        context_samples(ws, v, n) == Seq::new(if n > 3 { (n - 3) as nat } else { 0 }, |k: int| k + 3)
            .filter(|p: int| v.contains(ws[p])).map_values(
            |p: int| (ws.subrange(p - 3, p), first_index(v, ws[p]) as nat),
        ),
    decreases n,
{
    reveal(Seq::filter);
    let pos = Seq::new(if n > 3 { (n - 3) as nat } else { 0 }, |k: int| k + 3);
    let pr = |p: int| v.contains(ws[p]);
    let f = |p: int| (ws.subrange(p - 3, p), first_index(v, ws[p]) as nat);
    if n > 3 {
        lemma_examples_up_to(ws, v, n - 1);
        let prev = Seq::new(if n - 1 > 3 { (n - 1 - 3) as nat } else { 0 }, |k: int| k + 3);
        assert(pos.drop_last() =~= prev);
        assert(pos.last() == n - 1);
        let pre = prev.filter(pr);
        if v.contains(ws[n - 1]) {
            assert(pos.filter(pr) == pre.push(n - 1));
            assert(pre.push(n - 1).map_values(f) =~= pre.map_values(f).push(f(n - 1)));
        } else {
            assert(pos.filter(pr) == pre);
        }
    } else {
        assert(pos.len() == 0);
        assert(pos.filter(pr).map_values(f) =~= Seq::<(Seq<Seq<char>>, nat)>::empty());
    }
}

proof fn lemma_context_samples(ws: Seq<Seq<char>>, v: Seq<Seq<char>>, n: int)
    requires
        n <= ws.len(),
    ensures
        forall|i: int| 0 <= i < context_samples(ws, v, n).len() ==> {
            &&& (#[trigger] context_samples(ws, v, n)[i]).0.len() == CONTEXT_WORDS
            &&& context_samples(ws, v, n)[i].1 < v.len()
        },
    decreases n,
{
    if n > CONTEXT_WORDS {
        lemma_context_samples(ws, v, n - 1);
        let w = ws[n - 1];
        let rest = context_samples(ws, v, n - 1);
        let all = context_samples(ws, v, n);
        if v.contains(w) {
            lemma_first_index_exists(v, w);
        }
        assert forall|i: int| 0 <= i < all.len() implies {
            &&& (#[trigger] all[i]).0.len() == CONTEXT_WORDS
            &&& all[i].1 < v.len()
        } by {
            if i < rest.len() {
                assert(all[i] == rest[i]);
            }
        }
    }
}

/// The training examples for the generator from `tokens` and the vocabulary `vocab`.
pub fn context_examples(tokens: &Vec<String>, vocab: &Vec<String>) -> (r: Vec<Sample>)
    ensures
        sample_views(r@) == generator_samples(string_views(tokens@), string_views(vocab@)),
{
    let ghost ws = string_views(tokens@);
    let ghost v = string_views(vocab@);
    let n = tokens.len();
    let mut out: Vec<Sample> = Vec::new();
    if n > CONTEXT_WORDS {
        for i in CONTEXT_WORDS..n
            invariant
                n == tokens@.len(),
                ws == string_views(tokens@),
                v == string_views(vocab@),
                sample_views(out@) == context_samples(ws, v, i as int),
        {
            match position_of(vocab, &tokens[i]) {
                Some(k) => {
                    let mut ctx: Vec<String> = Vec::new();
                    for j in i - CONTEXT_WORDS..i
                        invariant
                            CONTEXT_WORDS <= i < n,
                            n == tokens@.len(),
                            ws == string_views(tokens@),
                            ctx@.len() == j - (i - CONTEXT_WORDS),
                            i - CONTEXT_WORDS <= j <= i,
                            string_views(ctx@) == ws.subrange(i - CONTEXT_WORDS, j as int),
                    {
                        let ghost before = ctx@;
                        ctx.push(tokens[j].clone());
                        assert(string_views(ctx@) == string_views(before).push(tokens@[j as int]@));
                        assert(ws.subrange(i - CONTEXT_WORDS, j + 1) == ws.subrange(i - CONTEXT_WORDS, j as int).push(ws[j as int]));
                    }
                    proof {
                        assert(v[k as int] == tokens@[i as int]@);
                        assert(v.contains(ws[i as int]));
                        assert(first_index(v, ws[i as int]) == k);
                    }
                    let ghost before = out@;
                    let smp = Sample { tokens: ctx, label: k };
                    out.push(smp);
                    assert(sample_views(out@) == sample_views(before).push(smp@));
                },
                None => {
                    assert(!v.contains(ws[i as int]));
                },
            }
        }
    }
    if out.len() > MAX_SAMPLES {
        let ghost all = out@;
        out.truncate(MAX_SAMPLES);
        assert(sample_views(out@) == sample_views(all).take(MAX_SAMPLES as int));
    }
    out
}

// ---------------------------------------------------------------------------
// Deciding whether to train, and on what
// ---------------------------------------------------------------------------

/// The outcome of a generator training request, as the frontend sees it.
#[derive(Debug)]
pub struct GenTrainResult {
    pub trained: bool,
    pub params: usize,
    pub vocab_size: usize,
    pub trained_on_words: usize,
    pub message: String,
    pub sample: String,
}

/// Generated text.
#[derive(Debug)]
pub struct GenOutput {
    pub text: String,
}

/// What the generator is trained on.
#[derive(Debug)]
pub struct GenTrainingSet {
    pub dim: usize,
    pub h1: usize,
    pub h2: usize,
    pub tokens: Vec<String>,
    pub vocab: Vec<String>,
    pub samples: Vec<Sample>,
}

/// Reads the facts, and either says why the generator cannot be trained yet or returns its
/// dimensions, the words read, the vocabulary and the training examples. Training needs at
/// least 200 words and at least one example.
pub fn prepare_generator(facts: &Vec<FactInput>, size_mode: &str) -> (r: Result<GenTrainingSet, GenTrainResult>)
    ensures
        ({
            let ws = tokens_spec(corpus(facts@), true);
            let dims = tier_dims_spec(size_mode@);
            match r {
                Ok(set) => {
                    &&& ws.len() >= MIN_WORDS
                    &&& (set.dim, set.h1, set.h2) == (dims.0, dims.1, dims.2)
                    &&& string_views(set.tokens@) == ws
                    &&& is_vocabulary(ws, dims.3 as nat, string_views(set.vocab@))
                    &&& sample_views(set.samples@) == generator_samples(ws, string_views(set.vocab@))
                    &&& set.samples@.len() > 0
                },
                Err(res) => {
                    &&& !res.trained
                    &&& res.params == 0
                    &&& res.trained_on_words == ws.len()
                    &&& res.sample@.len() == 0
                    &&& if ws.len() < MIN_WORDS {
                        &&& res.vocab_size == 0
                        &&& res.message@ == "Not enough reading material yet — teach Nova more, or run a Deep Study, then try again."@
                    } else {
                        &&& forall|v: Seq<Seq<char>>| #![trigger is_vocabulary(ws, dims.3 as nat, v)]
                            is_vocabulary(ws, dims.3 as nat, v) ==> res.vocab_size == v.len()
                                && generator_samples(ws, v).len() == 0
                        &&& res.message@ == "Couldn't build any training examples from what Nova knows yet."@
                    }
                },
            }
        }),
{
    let all_text = corpus_text(facts);
    let tokens = tokenize_natural(all_text.as_str());
    assert(string_views(tokens@).len() == tokens@.len());
    if tokens.len() < MIN_WORDS {
        return Err(GenTrainResult {
            trained: false,
            params: 0,
            vocab_size: 0,
            trained_on_words: tokens.len(),
            message: String::from_str(
                "Not enough reading material yet — teach Nova more, or run a Deep Study, then try again.",
            ),
            sample: String::new(),
        });
    }
    let (dim, h1, h2, vocab_cap) = tier_dims(size_mode);
    let vocab = build_vocab(&tokens, vocab_cap);
    let samples = context_examples(&tokens, &vocab);
    assert(sample_views(samples@).len() == samples@.len());
    assert(string_views(vocab@).len() == vocab@.len());
    if samples.len() == 0 {
        proof {
            let ws = string_views(tokens@);
            assert forall|v: Seq<Seq<char>>| #![trigger is_vocabulary(ws, vocab_cap as nat, v)]
                is_vocabulary(ws, vocab_cap as nat, v) implies vocab@.len() == v.len()
                    && generator_samples(ws, v).len() == 0 by {
                lemma_vocabulary_unique(ws, vocab_cap as nat, v, string_views(vocab@));
            }
        }
        return Err(GenTrainResult {
            trained: false,
            params: 0,
            vocab_size: vocab.len(),
            trained_on_words: tokens.len(),
            message: String::from_str("Couldn't build any training examples from what Nova knows yet."),
            sample: String::new(),
        });
    }
    Ok(GenTrainingSet { dim, h1, h2, tokens, vocab, samples })
}

/// The number of passes over `n` examples: 40000 example visits, held to 6..=20 passes.
pub fn training_epochs(n: usize) -> (r: usize)
    ensures
        r == epoch_count_spec(40000, n as nat, 6, 20),
        6 <= r <= 20,
{
    epoch_count(40000, n, 6, 20)
}

/// The message that reports a trained generator.
pub open spec fn trained_message(params: nat, vocab_size: nat, words: nat) -> Seq<char> {
    "Trained a native generator: "@ + decimal_spec(params) + " parameters, "@ + decimal_spec(vocab_size)
        + "-word vocabulary, "@ + decimal_spec(CONTEXT_WORDS as nat) + "-word context window, learned from "@
        + decimal_spec(words) + " words Nova has read."@
}

/// The reply after training a generator, with a sample of its writing.
pub fn trained_result(params: usize, vocab_size: usize, trained_on_words: usize, sample: String) -> (r: GenTrainResult)
    ensures
        r.trained,
        r.params == params && r.vocab_size == vocab_size && r.trained_on_words == trained_on_words,
        r.sample == sample,
        r.message@ == trained_message(params as nat, vocab_size as nat, trained_on_words as nat),
{
    let mut m = String::new();
    push_text(&mut m, "Trained a native generator: ");
    push_decimal(&mut m, params as u64);
    push_text(&mut m, " parameters, ");
    push_decimal(&mut m, vocab_size as u64);
    push_text(&mut m, "-word vocabulary, ");
    push_decimal(&mut m, CONTEXT_WORDS as u64);
    push_text(&mut m, "-word context window, learned from ");
    push_decimal(&mut m, trained_on_words as u64);
    push_text(&mut m, " words Nova has read.");
    GenTrainResult { trained: true, params, vocab_size, trained_on_words, message: m, sample }
}

// ---------------------------------------------------------------------------
// Generation
// ---------------------------------------------------------------------------

/// How many of the likeliest next words sampling chooses among: a twelfth of the vocabulary,
/// held to 5..=40.
pub fn top_k(vocab_len: usize) -> (r: usize)
    ensures
        r as int == clamp_spec((vocab_len / 12) as int, 5, 40),
        5 <= r <= 40,
{
    let k = vocab_len / 12;
    if k < 5 {
        5
    } else if k > 40 {
        40
    } else {
        k
    }
}

/// The word generation starts from, when the caller gives one: the seed lowercased, if that
/// is in the vocabulary.
pub fn seed_word(seed: Option<&str>, vocab: &Vec<String>) -> (r: Option<String>)
    ensures
        match seed {
            Some(s) => if string_views(vocab@).contains(lowercase(s@)) {
                r matches Some(w) && w@ == lowercase(s@)
            } else {
                r is None
            },
            None => r is None,
        },
{
    match seed {
        Some(s) => {
            let low = to_lowercase(s);
            match position_of(vocab, &low) {
                Some(k) => {
                    assert(string_views(vocab@)[k as int] == vocab@[k as int]@);
                    Some(low)
                },
                None => None,
            }
        },
        None => None,
    }
}

/// Whether step `i` (counting from 0) of `max_words` closes a sentence: it is the step at
/// the next break, and not the last step.
pub open spec fn ends_sentence(i: nat, next_break: nat, max_words: nat) -> bool {
    i + 1 == next_break && i + 1 < max_words
}

/// The word emitted at step `i` of `max_words` when vocabulary word `idx` was sampled: the
/// word, with a period appended when the step closes a sentence. Also says whether it did.
pub fn generated_word(vocab: &Vec<String>, idx: usize, i: usize, next_break: usize, max_words: usize) -> (r: (String, bool))
    requires
        idx < vocab@.len(),
    ensures
        r.1 == ends_sentence(i as nat, next_break as nat, max_words as nat),
        r.0@ == (if r.1 { vocab@[idx as int]@.push('.') } else { vocab@[idx as int]@ }),
{
    let mut word = vocab[idx].clone();
    let closes = i < max_words && i + 1 == next_break && i + 1 < max_words;
    if closes {
        push_char(&mut word, '.');
    }
    (word, closes)
}

/// The step of the next sentence break: ten steps after `after`, plus `gap` more. With the
/// gap drawn from 0 to 5, a period falls every 10 to 15 words.
pub fn sentence_break(after: usize, gap: usize) -> (r: usize)
    requires
        after + 10 + gap <= usize::MAX,
    ensures
        r == after + 10 + gap,
        gap <= 5 ==> after + 10 <= r <= after + 15,
{
    after + 10 + gap
}

/// `c` in upper case when it is an ASCII lowercase letter, otherwise `c` itself.
pub open spec fn ascii_upper(c: char) -> char {
    if 'a' <= c && c <= 'z' {
        ((c as u32) - 32) as char
    } else {
        c
    }
}

/// `w` with its first character put in ASCII upper case.
pub open spec fn capitalize(w: Seq<char>) -> Seq<char> {
    if w.len() == 0 {
        w
    } else {
        w.update(0, ascii_upper(w[0]))
    }
}

/// Whether `w` ends with a period.
pub open spec fn ends_with_period(w: Seq<char>) -> bool {
    w.len() > 0 && w.last() == '.'
}

/// The words with the first one, and each one after a word ending in a period, capitalized.
pub open spec fn sentence_case(ws: Seq<Seq<char>>) -> Seq<Seq<char>>
    decreases ws.len(),
{
    if ws.len() == 0 {
        seq![]
    } else {
        let p = sentence_case(ws.drop_last());
        if ws.len() == 1 || ends_with_period(p.last()) {
            p.push(capitalize(ws.last()))
        } else {
            p.push(ws.last())
        }
    }
}

/// `s` with each space-period pair, read from the left without overlap, replaced by a period.
pub open spec fn collapse_space_period(s: Seq<char>) -> Seq<char>
    decreases s.len(),
{
    if s.len() == 0 {
        seq![]
    } else if s.len() >= 2 && s[0] == ' ' && s[1] == '.' {
        seq!['.'] + collapse_space_period(s.skip(2))
    } else {
        seq![s[0]] + collapse_space_period(s.skip(1))
    }
}

/// The finished text: the sentence-cased words joined by spaces, with spaces before periods
/// removed, and ending in a period.
pub open spec fn finish_spec(ws: Seq<Seq<char>>) -> Seq<char> {
    let t = collapse_space_period(join_words(sentence_case(ws)));
    if ends_with_period(t) {
        t
    } else {
        t.push('.')
    }
}

fn upper_ascii(c: char) -> (r: char)
    ensures
        r == ascii_upper(c),
{
    if 'a' <= c && c <= 'z' {
        let x = c as u32;
        let b = (x - 32) as u8;
        b as char
    } else {
        c
    }
}

/// Capitalizes the first word and every word that follows one ending in a period.
fn sentence_case_exec(words: &Vec<String>) -> (r: Vec<Vec<char>>)
    ensures
        r@.map_values(|x: Vec<char>| x@) == sentence_case(string_views(words@)),
{
    let ghost ws = string_views(words@);
    let mut out: Vec<Vec<char>> = Vec::new();
    let mut capitalize_next = true;
    let n = words.len();
    for i in 0..n
        invariant
            n == words@.len(),
            ws == string_views(words@),
            out@.map_values(|x: Vec<char>| x@) == sentence_case(ws.take(i as int)),
            capitalize_next == (i == 0 || ends_with_period(sentence_case(ws.take(i as int)).last())),
    {
        assert(ws.take(i + 1).drop_last() == ws.take(i as int));
        assert(ws.take(i + 1).last() == words@[i as int]@);
        let mut w = chars_of(words[i].as_str());
        if capitalize_next && w.len() > 0 {
            let c = upper_ascii(w[0]);
            w.set(0, c);
        }
        let k = w.len();
        capitalize_next = k > 0 && w[k - 1] == '.';
        let ghost before = out@;
        out.push(w);
        assert(out@.map_values(|x: Vec<char>| x@) == before.map_values(|x: Vec<char>| x@).push(w@));
    }
    assert(ws.take(n as int) == ws);
    out
}

/// The finished text of the generated words.
pub fn finish_text(words: &Vec<String>) -> (r: String)
    ensures
        r@ == finish_spec(string_views(words@)),
        r@.len() > 0,
        r@.last() == '.',
{
    let cased = sentence_case_exec(words);
    let ghost cw = cased@.map_values(|x: Vec<char>| x@);
    // Join with single spaces.
    let mut joined: Vec<char> = Vec::new();
    let m = cased.len();
    for i in 0..m
        invariant
            m == cased@.len(),
            cw == cased@.map_values(|x: Vec<char>| x@),
            joined@ == join_words(cw.take(i as int)),
    {
        assert(cw.take(i + 1).drop_last() == cw.take(i as int));
        assert(cw.take(i + 1).last() == cased@[i as int]@);
        let ghost start = joined@;
        if i > 0 {
            joined.push(' ');
        }
        let ghost mid = joined@;
        let wl = cased[i].len();
        for k in 0..wl
            invariant
                wl == cased@[i as int]@.len(),
                m == cased@.len(),
                i < m,
                joined@ == mid + cased@[i as int]@.take(k as int),
        {
            joined.push(cased[i][k]);
            assert(cased@[i as int]@.take(k + 1) == cased@[i as int]@.take(k as int).push(cased@[i as int]@[k as int]));
        }
        assert(cased@[i as int]@.take(wl as int) == cased@[i as int]@);
        if i == 0 {
            assert(cw.take(1) =~= seq![cased@[0]@]);
        }
    }
    assert(cw.take(m as int) == cw);
    // Replace each space-period pair by a period.
    let mut out: Vec<char> = Vec::new();
    let n = joined.len();
    let mut i: usize = 0;
    assert(joined@.skip(0) == joined@);
    while i < n
        invariant
            n == joined@.len(),
            i <= n,
            out@ + collapse_space_period(joined@.skip(i as int)) == collapse_space_period(joined@),
        decreases n - i,
    {
        let ghost rest = joined@.skip(i as int);
        if joined[i] == ' ' && i + 1 < n && joined[i + 1] == '.' {
            assert(rest.skip(2) == joined@.skip(i + 2));
            assert(collapse_space_period(rest) == seq!['.'] + collapse_space_period(rest.skip(2)));
            out.push('.');
            i = i + 2;
        } else {
            assert(rest.skip(1) == joined@.skip(i + 1));
            assert(collapse_space_period(rest) == seq![rest[0]] + collapse_space_period(rest.skip(1)));
            out.push(joined[i]);
            i = i + 1;
        }
    }
    assert(joined@.skip(n as int).len() == 0);
    assert(out@ == collapse_space_period(joined@));
    let k = out.len();
    if !(k > 0 && out[k - 1] == '.') {
        out.push('.');
    }
    string_of(&out)
}

} // verus!
