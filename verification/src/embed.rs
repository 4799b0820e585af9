use vstd::prelude::*;
use crate::fmt::{decimal_spec, push_decimal, push_text};
use crate::net::{epoch_count, epoch_count_spec};
use crate::nn::first_n;
use crate::text::{string_views, str_is, tokens_spec, tokenize_text, to_lowercase, lowercase};
use crate::vocab::{lemma_vocabulary_unique, build_vocab, is_vocabulary, position_of, first_index, lemma_first_index_exists};

pub use crate::nn::FactInput;
pub use crate::rng::Rng;
pub use crate::text::clean;

verus! {

// ---------------------------------------------------------------------------
// Text processing for the embeddings
// ---------------------------------------------------------------------------

/// The words of `text` after cleaning.
pub fn tokenize(text: &str) -> (r: Vec<String>)
    ensures
        string_views(r@) == tokens_spec(text@, false),
        forall|i: int| 0 <= i < r@.len() ==> crate::text::is_token(#[trigger] r@[i]@, false),
{
    tokenize_text(text, false)
}

/// The fewest words of reading the embeddings are trained on.
pub const MIN_WORDS: usize = 100;

/// How far on each side of a word its context reaches.
pub const WINDOW: usize = 2;

/// The most word pairs the embeddings are trained on.
pub const MAX_PAIRS: usize = 40000;

/// `(embedding_dim, vocabulary_cap)` for a size mode.
pub open spec fn tier_dims_spec(size_mode: Seq<char>) -> (usize, usize) {
    if size_mode == "large"@ {
        (64, 1500)
    } else if size_mode == "ultra"@ {
        (96, 3000)
    } else {
        (32, 700)
    }
}

/// The embedding dimension and vocabulary cap for a size mode.
pub fn tier_dims(size_mode: &str) -> (r: (usize, usize))
    ensures
        r == tier_dims_spec(size_mode@),
{
    if str_is(size_mode, "large") {
        (64, 1500)
    } else if str_is(size_mode, "ultra") {
        (96, 3000)
    } else {
        (32, 700)
    }
}

/// Everything the embeddings read: each fact's question and answer, each followed by a space.
pub open spec fn corpus(facts: Seq<FactInput>) -> Seq<char>
    decreases facts.len(),
{
    if facts.len() == 0 {
        seq![]
    } else {
        corpus(facts.drop_last()) + facts.last().question@ + " "@ + facts.last().answer@ + " "@
    }
}

/// The text the embeddings learn from.
pub fn corpus_text(facts: &Vec<FactInput>) -> (r: String)
    ensures
        r@ == corpus(facts@),
{
    let mut all = String::new();
    let n = facts.len();
    for i in 0..n
        invariant
            n == facts@.len(),
            all@ == corpus(facts@.take(i as int)),
    {
        assert(facts@.take(i + 1).drop_last() == facts@.take(i as int));
        assert(facts@.take(i + 1).last() == facts@[i as int]);
        push_text(&mut all, facts[i].question.as_str());
        push_text(&mut all, " ");
        push_text(&mut all, facts[i].answer.as_str());
        push_text(&mut all, " ");
    }
    assert(facts@.take(n as int) == facts@);
    all
}

// ---------------------------------------------------------------------------
// Skip-gram pairs
// ---------------------------------------------------------------------------

/// The first position in the window around position `i`.
pub open spec fn window_lo(i: int) -> int {
    if i >= WINDOW {
        i - WINDOW
    } else {
        0
    }
}

/// One past the last position in the window around position `i`, in `n` words.
pub open spec fn window_hi(i: int, n: int) -> int {
    if i + WINDOW + 1 <= n {
        i + WINDOW + 1
    } else {
        n
    }
}

/// The pairs (center, context) for the word at `i` and the vocabulary words at positions
/// `window_lo(i)..j` other than `i`, as vocabulary indices.
pub open spec fn center_pairs(ws: Seq<Seq<char>>, v: Seq<Seq<char>>, i: int, j: int) -> Seq<(usize, usize)>
    decreases j - window_lo(i),
{
    if j <= window_lo(i) {
        seq![]
    } else {
        let rest = center_pairs(ws, v, i, j - 1);
        let k = j - 1;
        if k != i && v.contains(ws[k]) {
            rest.push((first_index(v, ws[i]) as usize, first_index(v, ws[k]) as usize))
        } else {
            rest
        }
    }
}

/// The pairs from the words at positions `0..n`: for each one in the vocabulary, its pairs
/// with the vocabulary words at most two positions away.
pub open spec fn skipgram_pairs(ws: Seq<Seq<char>>, v: Seq<Seq<char>>, n: int) -> Seq<(usize, usize)>
    decreases n,
{
    if n <= 0 {
        seq![]
    } else {
        let rest = skipgram_pairs(ws, v, n - 1);
        if v.contains(ws[n - 1]) {
            rest + center_pairs(ws, v, n - 1, window_hi(n - 1, ws.len() as int))
        } else {
            rest
        }
    }
}

/// The pairs the embeddings train on: all of them, cut at 40000.
pub open spec fn embedding_pairs(ws: Seq<Seq<char>>, v: Seq<Seq<char>>) -> Seq<(usize, usize)> {
    first_n(skipgram_pairs(ws, v, ws.len() as int), MAX_PAIRS as nat)
}

/// The positions `0..n`, in order.
pub open spec fn positions(n: nat) -> Seq<int> {
    Seq::new(n, |p: int| p)
}

/// Whether position `p` is a neighbour of position `i` whose word the vocabulary holds: at
/// most two places from it, before or after, and not `i` itself.
pub open spec fn known_neighbour(ws: Seq<Seq<char>>, v: Seq<Seq<char>>, i: int) -> spec_fn(int) -> bool {
    |p: int| p != i && i - 2 <= p && p <= i + 2 && v.contains(ws[p])
}

/// The pair of the word at `i` with the word at `p`, as vocabulary indices.
pub open spec fn pair_with(ws: Seq<Seq<char>>, v: Seq<Seq<char>>, i: int) -> spec_fn(int) -> (usize, usize) {
    |p: int| (first_index(v, ws[i]) as usize, first_index(v, ws[p]) as usize)
}

/// The pairs for the word at position `i` of `ws`: when the vocabulary holds it, one pair
/// with each of its known neighbours, in text order; none otherwise.
pub open spec fn pairs_around(ws: Seq<Seq<char>>, v: Seq<Seq<char>>, i: int) -> Seq<(usize, usize)> {
    if v.contains(ws[i]) {
        positions(ws.len()).filter(known_neighbour(ws, v, i)).map_values(pair_with(ws, v, i))
    } else {
        Seq::empty()
    }
}

/// Every occurrence of a vocabulary word is paired with every vocabulary word at most two
/// places from it, before or after, and with nothing else: the pairs are those around each
/// position in turn. The embeddings train on the first 40000 of them.
pub proof fn lemma_pairs_from_every_window(ws: Seq<Seq<char>>, v: Seq<Seq<char>>)
    ensures
        skipgram_pairs(ws, v, ws.len() as int) == Seq::new(ws.len(), |i: int| pairs_around(ws, v, i)).flatten(),
        embedding_pairs(ws, v) == (if skipgram_pairs(ws, v, ws.len() as int).len() <= 40000 {
            skipgram_pairs(ws, v, ws.len() as int)
        } else {
            skipgram_pairs(ws, v, ws.len() as int).take(40000)
        }),
{
    lemma_pairs_prefix(ws, v, ws.len() as int);
}

proof fn lemma_pairs_prefix(ws: Seq<Seq<char>>, v: Seq<Seq<char>>, n: int)
    requires
        0 <= n <= ws.len(),
    ensures
        skipgram_pairs(ws, v, n) == Seq::new(n as nat, |i: int| pairs_around(ws, v, i)).flatten(),
    decreases n,
{
    let g = |i: int| pairs_around(ws, v, i);
    if n == 0 {
        assert(Seq::new(0, g) =~= Seq::<Seq<(usize, usize)>>::empty());
    } else {
        lemma_pairs_prefix(ws, v, n - 1);
        assert(Seq::new(n as nat, g) =~= Seq::new((n - 1) as nat, g).push(g(n - 1)));
        Seq::new((n - 1) as nat, g).lemma_flatten_push(g(n - 1));
        let rest = skipgram_pairs(ws, v, n - 1);
        if v.contains(ws[n - 1]) {
            lemma_center_window(ws, v, n - 1);
        } else {
            assert(rest + Seq::<(usize, usize)>::empty() =~= rest);
        }
    }
}

proof fn lemma_center_window(ws: Seq<Seq<char>>, v: Seq<Seq<char>>, i: int)
    requires
        0 <= i < ws.len(),
        v.contains(ws[i]),
    ensures
        center_pairs(ws, v, i, window_hi(i, ws.len() as int)) == pairs_around(ws, v, i),
{
    let n = ws.len() as int;
    let hi = window_hi(i, n);
    lemma_center_prefix(ws, v, i, hi);
    lemma_window_tail(ws, v, i, n);
}

proof fn lemma_center_prefix(ws: Seq<Seq<char>>, v: Seq<Seq<char>>, i: int, j: int)
    requires
        0 <= j <= i + 3,
    ensures
        center_pairs(ws, v, i, j)
            == positions(j as nat).filter(known_neighbour(ws, v, i)).map_values(pair_with(ws, v, i)),
    decreases j,
{
    reveal(Seq::filter);
    let q = known_neighbour(ws, v, i);
    let f = pair_with(ws, v, i);
    let all = positions(j as nat);
    if j == 0 {
        assert(all.filter(q).map_values(f) =~= Seq::<(usize, usize)>::empty());
    } else {
        lemma_center_prefix(ws, v, i, j - 1);
        let prev = positions((j - 1) as nat);
        assert(all.drop_last() =~= prev);
        assert(all.last() == j - 1);
        let pre = prev.filter(q);
        if q(j - 1) {
            assert(all.filter(q) == pre.push(j - 1));
            assert(pre.push(j - 1).map_values(f) =~= pre.map_values(f).push(f(j - 1)));
        } else {
            assert(all.filter(q) == pre);
        }
    }
}

proof fn lemma_window_tail(ws: Seq<Seq<char>>, v: Seq<Seq<char>>, i: int, k: int)
    requires
        0 <= i,
        window_hi(i, ws.len() as int) <= k,
        k <= ws.len(),
    ensures
        positions(k as nat).filter(known_neighbour(ws, v, i))
            == positions(window_hi(i, ws.len() as int) as nat).filter(known_neighbour(ws, v, i)),
    decreases k,
{
    reveal(Seq::filter);
    let q = known_neighbour(ws, v, i);
    if k > window_hi(i, ws.len() as int) {
        lemma_window_tail(ws, v, i, k - 1);
        let all = positions(k as nat);
        assert(all.drop_last() =~= positions((k - 1) as nat));
        assert(all.last() == k - 1);
        assert(!q(k - 1));
    }
}

proof fn lemma_center_pairs(ws: Seq<Seq<char>>, v: Seq<Seq<char>>, i: int, j: int)
    requires
        0 <= i < ws.len(),
        j <= ws.len(),
        v.contains(ws[i]),
        v.len() <= usize::MAX,
    ensures
        forall|k: int| 0 <= k < center_pairs(ws, v, i, j).len() ==> {
            &&& ((#[trigger] center_pairs(ws, v, i, j)[k]).0 as int) < v.len()
            &&& (center_pairs(ws, v, i, j)[k].1 as int) < v.len()
            &&& v[center_pairs(ws, v, i, j)[k].0 as int] == ws[i]
            &&& exists|p: int| window_lo(i) <= p < j && p != i && v[center_pairs(ws, v, i, j)[k].1 as int] == ws[p]
        },
    decreases j - window_lo(i),
{
    if j > window_lo(i) {
        lemma_center_pairs(ws, v, i, j - 1);
        lemma_first_index_exists(v, ws[i]);
        let kk = j - 1;
        if kk != i && v.contains(ws[kk]) {
            lemma_first_index_exists(v, ws[kk]);
            let rest = center_pairs(ws, v, i, j - 1);
            let all = center_pairs(ws, v, i, j);
            assert forall|k: int| 0 <= k < all.len() implies {
                &&& ((#[trigger] all[k]).0 as int) < v.len()
                &&& (all[k].1 as int) < v.len()
                &&& v[all[k].0 as int] == ws[i]
                &&& exists|p: int| window_lo(i) <= p < j && p != i && v[all[k].1 as int] == ws[p]
            } by {
                if k < rest.len() {
                    assert(all[k] == rest[k]);
                    let p = choose|p: int| window_lo(i) <= p < j - 1 && p != i && v[rest[k].1 as int] == ws[p];
                } else {
                    assert(v[all[k].1 as int] == ws[kk]);
                }
            }
        } else {
            let rest = center_pairs(ws, v, i, j - 1);
            assert forall|k: int| 0 <= k < rest.len() implies
                exists|p: int| window_lo(i) <= p < j && p != i && v[(#[trigger] rest[k]).1 as int] == ws[p] by {
                let p = choose|p: int| window_lo(i) <= p < j - 1 && p != i && v[rest[k].1 as int] == ws[p];
            }
        }
    }
}

/// Every pair joins the vocabulary index of a word with that of a different position at most
/// two places away, and there are at most 40000 pairs.
pub proof fn lemma_embedding_pairs(ws: Seq<Seq<char>>, v: Seq<Seq<char>>)
    requires
        v.len() <= usize::MAX,
    ensures
        forall|k: int| 0 <= k < embedding_pairs(ws, v).len() ==> {
            &&& ((#[trigger] embedding_pairs(ws, v)[k]).0 as int) < v.len()
            &&& (embedding_pairs(ws, v)[k].1 as int) < v.len()
            &&& exists|p: int, q: int| 0 <= p < ws.len() && 0 <= q < ws.len() && p != q
                && p - WINDOW <= q <= p + WINDOW
                && v[embedding_pairs(ws, v)[k].0 as int] == ws[p]
                && v[embedding_pairs(ws, v)[k].1 as int] == ws[q]
        },
        embedding_pairs(ws, v).len() <= MAX_PAIRS,
{
    lemma_skipgram_pairs(ws, v, ws.len() as int);
    let all = skipgram_pairs(ws, v, ws.len() as int);
    assert forall|k: int| 0 <= k < embedding_pairs(ws, v).len() implies {
        &&& ((#[trigger] embedding_pairs(ws, v)[k]).0 as int) < v.len()
        &&& (embedding_pairs(ws, v)[k].1 as int) < v.len()
        &&& exists|p: int, q: int| 0 <= p < ws.len() && 0 <= q < ws.len() && p != q
            && p - WINDOW <= q <= p + WINDOW
            && v[embedding_pairs(ws, v)[k].0 as int] == ws[p]
            && v[embedding_pairs(ws, v)[k].1 as int] == ws[q]
    } by {
        assert(embedding_pairs(ws, v)[k] == all[k]);
    }
}

proof fn lemma_skipgram_pairs(ws: Seq<Seq<char>>, v: Seq<Seq<char>>, n: int)
    requires
        n <= ws.len(),
        v.len() <= usize::MAX,
    ensures
        forall|k: int| 0 <= k < skipgram_pairs(ws, v, n).len() ==> {
            &&& ((#[trigger] skipgram_pairs(ws, v, n)[k]).0 as int) < v.len()
            &&& (skipgram_pairs(ws, v, n)[k].1 as int) < v.len()
            &&& exists|p: int, q: int| 0 <= p < ws.len() && 0 <= q < ws.len() && p != q
                && p - WINDOW <= q <= p + WINDOW
                && v[skipgram_pairs(ws, v, n)[k].0 as int] == ws[p]
                && v[skipgram_pairs(ws, v, n)[k].1 as int] == ws[q]
        },
    decreases n,
{
    if n > 0 {
        lemma_skipgram_pairs(ws, v, n - 1);
        let rest = skipgram_pairs(ws, v, n - 1);
        if v.contains(ws[n - 1]) {
            let i = n - 1;
            let hi = window_hi(i, ws.len() as int);
            lemma_center_pairs(ws, v, i, hi);
            let cp = center_pairs(ws, v, i, hi);
            let all = rest + cp;
            assert forall|k: int| 0 <= k < all.len() implies {
                &&& ((#[trigger] all[k]).0 as int) < v.len()
                &&& (all[k].1 as int) < v.len()
                &&& exists|p: int, q: int| 0 <= p < ws.len() && 0 <= q < ws.len() && p != q
                    && p - WINDOW <= q <= p + WINDOW
                    && v[all[k].0 as int] == ws[p]
                    && v[all[k].1 as int] == ws[q]
            } by {
                if k < rest.len() {
                    assert(all[k] == rest[k]);
                } else {
                    assert(all[k] == cp[k - rest.len()]);
                    let q = choose|q: int| window_lo(i) <= q < hi && q != i && v[cp[k - rest.len()].1 as int] == ws[q];
                    assert(0 <= i < ws.len() && 0 <= q < ws.len() && i != q && i - WINDOW <= q <= i + WINDOW);
                }
            }
        }
    }
}

/// The (center, context) vocabulary-index pairs of `tokens`.
pub fn word_pairs(tokens: &Vec<String>, vocab: &Vec<String>) -> (r: Vec<(usize, usize)>)
    ensures
        r@ == embedding_pairs(string_views(tokens@), string_views(vocab@)),
{
    let ghost ws = string_views(tokens@);
    let ghost v = string_views(vocab@);
    let n = tokens.len();
    let mut pairs: Vec<(usize, usize)> = Vec::new();
    for i in 0..n
        invariant
            n == tokens@.len(),
            ws == string_views(tokens@),
            v == string_views(vocab@),
            pairs@ == skipgram_pairs(ws, v, i as int),
    {
        match position_of(vocab, &tokens[i]) {
            Some(center) => {
                proof {
                    assert(v[center as int] == ws[i as int]);
                }
                let lo = if i >= WINDOW { i - WINDOW } else { 0 };
                let hi = if n - i > WINDOW { i + WINDOW + 1 } else { n };
                let ghost base = pairs@;
                for j in lo..hi
                    invariant
                        n == tokens@.len(),
                        ws == string_views(tokens@),
                        v == string_views(vocab@),
                        i < n,
                        lo == window_lo(i as int),
                        hi == window_hi(i as int, n as int),
                        lo <= j <= hi,
                        center as int == first_index(v, ws[i as int]),
                        pairs@ == base + center_pairs(ws, v, i as int, j as int),
                {
                    if j != i {
                        match position_of(vocab, &tokens[j]) {
                            Some(ctx) => {
                                proof {
                                    assert(v[ctx as int] == ws[j as int]);
                                    assert(v.contains(ws[j as int]));
                                }
                                pairs.push((center, ctx));
                                assert(pairs@ == base + center_pairs(ws, v, i as int, j + 1));
                            },
                            None => {
                                assert(pairs@ == base + center_pairs(ws, v, i as int, j + 1));
                            },
                        }
                    } else {
                        assert(pairs@ == base + center_pairs(ws, v, i as int, j + 1));
                    }
                }
                assert(v.contains(ws[i as int]));
            },
            None => {
                assert(!v.contains(ws[i as int]));
            },
        }
    }
    if pairs.len() > MAX_PAIRS {
        pairs.truncate(MAX_PAIRS);
    }
    pairs
}

// ---------------------------------------------------------------------------
// Deciding whether to train, and on what
// ---------------------------------------------------------------------------

/// The outcome of an embedding training request, as the frontend sees it.
#[derive(Debug)]
pub struct EmbedTrainResult {
    pub trained: bool,
    pub vocab_size: usize,
    pub dim: usize,
    pub pairs_trained: usize,
    pub message: String,
}

/// A fact offered for ranking: its key and its text.
#[derive(Debug)]
pub struct Candidate {
    pub key: String,
    pub text: String,
}

/// What the embeddings are trained on.
#[derive(Debug)]
pub struct EmbedTrainingSet {
    pub dim: usize,
    pub word_count: usize,
    pub vocab: Vec<String>,
    pub pairs: Vec<(usize, usize)>,
}

/// Reads the facts, and either says why embeddings cannot be trained yet or returns their
/// dimension, the vocabulary and the (center, context) pairs. Training needs at least 100
/// words and at least one pair.
pub fn prepare_embeddings(facts: &Vec<FactInput>, size_mode: &str) -> (r: Result<EmbedTrainingSet, EmbedTrainResult>)
    ensures
        ({
            let ws = tokens_spec(corpus(facts@), false);
            let dims = tier_dims_spec(size_mode@);
            match r {
                Ok(set) => {
                    &&& ws.len() >= MIN_WORDS
                    &&& set.dim == dims.0
                    &&& set.word_count == ws.len()
                    &&& is_vocabulary(ws, dims.1 as nat, string_views(set.vocab@))
                    &&& set.pairs@ == embedding_pairs(ws, string_views(set.vocab@))
                    &&& set.pairs@.len() > 0
                },
                Err(res) => {
                    &&& !res.trained
                    &&& res.pairs_trained == 0
                    &&& if ws.len() < MIN_WORDS {
                        &&& res.vocab_size == 0
                        &&& res.dim == 0
                        &&& res.message@ == "Not enough reading material yet — teach Nova more, or run a Deep Study, then try again."@
                    } else {
                        &&& res.dim == dims.0
                        &&& forall|v: Seq<Seq<char>>| #![trigger is_vocabulary(ws, dims.1 as nat, v)]
                            is_vocabulary(ws, dims.1 as nat, v) ==> res.vocab_size == v.len()
                                && embedding_pairs(ws, v).len() == 0
                        &&& res.message@ == "Couldn't build any training pairs from what Nova knows yet."@
                    }
                },
            }
        }),
{
    let all_text = corpus_text(facts);
    let tokens = tokenize(all_text.as_str());
    assert(string_views(tokens@).len() == tokens@.len());
    if tokens.len() < MIN_WORDS {
        return Err(EmbedTrainResult {
            trained: false,
            vocab_size: 0,
            dim: 0,
            pairs_trained: 0,
            message: String::from_str(
                "Not enough reading material yet — teach Nova more, or run a Deep Study, then try again.",
            ),
        });
    }
    let (dim, vocab_cap) = tier_dims(size_mode);
    let vocab = build_vocab(&tokens, vocab_cap);
    let pairs = word_pairs(&tokens, &vocab);
    assert(string_views(vocab@).len() == vocab@.len());
    if pairs.len() == 0 {
        proof {
            let ws = string_views(tokens@);
            assert forall|v: Seq<Seq<char>>| #![trigger is_vocabulary(ws, vocab_cap as nat, v)]
                is_vocabulary(ws, vocab_cap as nat, v) implies vocab@.len() == v.len()
                    && embedding_pairs(ws, v).len() == 0 by {
                lemma_vocabulary_unique(ws, vocab_cap as nat, v, string_views(vocab@));
            }
        }
        return Err(EmbedTrainResult {
            trained: false,
            vocab_size: vocab.len(),
            dim,
            pairs_trained: 0,
            message: String::from_str("Couldn't build any training pairs from what Nova knows yet."),
        });
    }
    Ok(EmbedTrainingSet { dim, word_count: tokens.len(), vocab, pairs })
}

/// The number of passes over `n` pairs: 30000 pair visits, held to 4..=12 passes.
pub fn training_epochs(n: usize) -> (r: usize)
    ensures
        r == epoch_count_spec(30000, n as nat, 4, 12),
        4 <= r <= 12,
{
    epoch_count(30000, n, 4, 12)
}

/// The message that reports trained embeddings.
pub open spec fn trained_message(dim: nat, vocab_size: nat, pairs: nat) -> Seq<char> {
    "Trained "@ + decimal_spec(dim) + "-dimensional embeddings for "@ + decimal_spec(vocab_size)
        + " words from "@ + decimal_spec(pairs)
        + " word-pairs — Nova can now match meaning, not just exact words."@
}

/// The reply after training embeddings.
pub fn trained_result(dim: usize, vocab_size: usize, pairs_trained: usize) -> (r: EmbedTrainResult)
    ensures
        r.trained,
        r.dim == dim && r.vocab_size == vocab_size && r.pairs_trained == pairs_trained,
        r.message@ == trained_message(dim as nat, vocab_size as nat, pairs_trained as nat),
{
    let mut m = String::new();
    push_text(&mut m, "Trained ");
    push_decimal(&mut m, dim as u64);
    push_text(&mut m, "-dimensional embeddings for ");
    push_decimal(&mut m, vocab_size as u64);
    push_text(&mut m, " words from ");
    push_decimal(&mut m, pairs_trained as u64);
    push_text(&mut m, " word-pairs — Nova can now match meaning, not just exact words.");
    EmbedTrainResult { trained: true, vocab_size, dim, pairs_trained, message: m }
}

// ---------------------------------------------------------------------------
// Looking words up
// ---------------------------------------------------------------------------

/// The vocabulary indices of the words of `ws` that are in `v`, in order.
pub open spec fn known_indices(ws: Seq<Seq<char>>, v: Seq<Seq<char>>) -> Seq<usize>
    decreases ws.len(),
{
    if ws.len() == 0 {
        seq![]
    } else if v.contains(ws.last()) {
        known_indices(ws.drop_last(), v).push(first_index(v, ws.last()) as usize)
    } else {
        known_indices(ws.drop_last(), v)
    }
}

/// Every occurrence counts: the known-word list has one entry per token that the vocabulary
/// holds, repeats kept, in the order of the text, and each entry is the vocabulary index of
/// its token. So its length is the number of positions whose token is in the vocabulary.
pub proof fn lemma_known_indices_every_occurrence(ws: Seq<Seq<char>>, v: Seq<Seq<char>>)
    ensures
        known_indices(ws, v) == ws.filter(|w: Seq<char>| v.contains(w)).map_values(
            |w: Seq<char>| first_index(v, w) as usize,
        ),
    decreases ws.len(),
{
    reveal(Seq::filter);
    if ws.len() > 0 {
        lemma_known_indices_every_occurrence(ws.drop_last(), v);
        let p = |w: Seq<char>| v.contains(w);
        let f = |w: Seq<char>| first_index(v, w) as usize;
        let pre = ws.drop_last().filter(p);
        if v.contains(ws.last()) {
            assert(ws.filter(p) == pre.push(ws.last()));
            assert(pre.push(ws.last()).map_values(f) =~= pre.map_values(f).push(f(ws.last())));
        } else {
            assert(ws.filter(p) == pre);
        }
    }
}

/// The vocabulary indices of the known words of `text`, in order: the words whose vectors
/// make up the text's vector. A known word that occurs twice is listed twice.
pub fn known_word_indices(vocab: &Vec<String>, text: &str) -> (r: Vec<usize>)
    ensures
        r@ == known_indices(tokens_spec(text@, false), string_views(vocab@)),
        r@ == tokens_spec(text@, false).filter(|w: Seq<char>| string_views(vocab@).contains(w))
            .map_values(|w: Seq<char>| first_index(string_views(vocab@), w) as usize),
        forall|i: int| 0 <= i < r@.len() ==> #[trigger] r@[i] < vocab@.len(),
{
    let toks = tokenize(text);
    let ghost ws = string_views(toks@);
    let ghost v = string_views(vocab@);
    let n = toks.len();
    let mut out: Vec<usize> = Vec::new();
    for i in 0..n
        invariant
            n == toks@.len(),
            ws == string_views(toks@),
            v == string_views(vocab@),
            out@ == known_indices(ws.take(i as int), v),
            forall|k: int| 0 <= k < out@.len() ==> #[trigger] out@[k] < vocab@.len(),
    {
        assert(ws.take(i + 1).drop_last() == ws.take(i as int));
        assert(ws.take(i + 1).last() == toks@[i as int]@);
        match position_of(vocab, &toks[i]) {
            Some(k) => {
                proof {
                    assert(v[k as int] == ws[i as int]);
                    assert(v.contains(ws[i as int]));
                }
                out.push(k);
            },
            None => {},
        }
    }
    assert(ws.take(n as int) == ws);
    proof {
        lemma_known_indices_every_occurrence(ws, v);
    }
    out
}

/// Where the lowercased `word` stands in the vocabulary, if it is there.
pub fn word_index(vocab: &Vec<String>, word: &str) -> (r: Option<usize>)
    ensures
        match r {
            Some(k) => k < vocab@.len() && vocab@[k as int]@ == lowercase(word@)
                && k as int == first_index(string_views(vocab@), lowercase(word@)),
            None => !string_views(vocab@).contains(lowercase(word@)),
        },
{
    let low = to_lowercase(word);
    position_of(vocab, &low)
}

} // verus!
