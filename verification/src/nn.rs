use vstd::prelude::*;
pub use crate::rng::Rng;
pub use crate::text::{clean, hash_word};
use crate::order::{contains_string, insert_sorted, strictly_sorted, lemma_sorted_same_elements};
use crate::fmt::{decimal_spec, push_decimal, push_text};
use crate::net::{epoch_count, epoch_count_spec};
use crate::text::{str_is, chars_are, chars_of, string_of, tokenize_text, string_views, tokens_spec, is_token};

verus! {

// ---------------------------------------------------------------------------
// Text processing for the topic classifier
// ---------------------------------------------------------------------------

/// The words too common to say anything about a topic.
pub open spec fn is_stop_word(w: Seq<char>) -> bool {
    ||| w == "what"@
    ||| w == "is"@
    ||| w == "the"@
    ||| w == "a"@
    ||| w == "an"@
    ||| w == "who"@
    ||| w == "how"@
    ||| w == "do"@
    ||| w == "does"@
    ||| w == "are"@
    ||| w == "was"@
    ||| w == "were"@
    ||| w == "in"@
    ||| w == "of"@
    ||| w == "to"@
    ||| w == "it"@
    ||| w == "i"@
    ||| w == "you"@
    ||| w == "and"@
    ||| w == "or"@
    ||| w == "but"@
    ||| w == "with"@
    ||| w == "me"@
    ||| w == "my"@
    ||| w == "tell"@
    ||| w == "about"@
    ||| w == "on"@
    ||| w == "for"@
    ||| w == "that"@
    ||| w == "this"@
    ||| w == "can"@
    ||| w == "using"@
    ||| w == "whats"@
    ||| w == "its"@
    ||| w == "mean"@
    ||| w == "means"@
    ||| w == "meaning"@
    ||| w == "define"@
    ||| w == "definition"@
    ||| w == "word"@
    ||| w == "wassup"@
    ||| w == "sup"@
}

/// Whether `w` is one of the stop words.
pub fn stop_word(w: &Vec<char>) -> (r: bool)
    ensures
        r == is_stop_word(w@),
{
    chars_are(w, "what")
        || chars_are(w, "is")
        || chars_are(w, "the")
        || chars_are(w, "a")
        || chars_are(w, "an")
        || chars_are(w, "who")
        || chars_are(w, "how")
        || chars_are(w, "do")
        || chars_are(w, "does")
        || chars_are(w, "are")
        || chars_are(w, "was")
        || chars_are(w, "were")
        || chars_are(w, "in")
        || chars_are(w, "of")
        || chars_are(w, "to")
        || chars_are(w, "it")
        || chars_are(w, "i")
        || chars_are(w, "you")
        || chars_are(w, "and")
        || chars_are(w, "or")
        || chars_are(w, "but")
        || chars_are(w, "with")
        || chars_are(w, "me")
        || chars_are(w, "my")
        || chars_are(w, "tell")
        || chars_are(w, "about")
        || chars_are(w, "on")
        || chars_are(w, "for")
        || chars_are(w, "that")
        || chars_are(w, "this")
        || chars_are(w, "can")
        || chars_are(w, "using")
        || chars_are(w, "whats")
        || chars_are(w, "its")
        || chars_are(w, "mean")
        || chars_are(w, "means")
        || chars_are(w, "meaning")
        || chars_are(w, "define")
        || chars_are(w, "definition")
        || chars_are(w, "word")
        || chars_are(w, "wassup")
        || chars_are(w, "sup")
}

/// The plural-stripping stem of a word: a word longer than three bytes in UTF-8 that ends in
/// `s` loses that final `s`; any other word is kept whole.
pub open spec fn stem_spec(w: Seq<char>) -> Seq<char> {
    if vstd::utf8::encode_utf8(w).len() > 3 && w.len() > 0 && w.last() == 's' {
        w.drop_last()
    } else {
        w
    }
}

/// Strips a plural `s` from `word` when the word is longer than three bytes.
pub fn stem(word: &str) -> (r: String)
    ensures
        r@ == stem_spec(word@),
        r@ == word@ || (word@.len() > 0 && word@.last() == 's' && r@ == word@.subrange(0, word@.len() - 1)),
        word@.len() == 0 || word@.last() != 's' ==> r@ == word@,
{
    let byte_len = word.as_bytes().len();
    let mut cs = chars_of(word);
    let n = cs.len();
    if byte_len > 3 && n > 0 && cs[n - 1] == 's' {
        cs.pop();
        assert(cs@ == word@.drop_last());
    }
    string_of(&cs)
}

/// The keywords of a token sequence: the stems of its tokens that are not stop words.
pub open spec fn keywords_of(ws: Seq<Seq<char>>) -> Seq<Seq<char>>
    decreases ws.len(),
{
    if ws.len() == 0 {
        seq![]
    } else {
        let rest = keywords_of(ws.drop_last());
        if is_stop_word(ws.last()) {
            rest
        } else {
            rest.push(stem_spec(ws.last()))
        }
    }
}

/// The keywords of a text: the stems of the non-stop-word tokens of its cleaned form.
pub open spec fn keywords_spec(text: Seq<char>) -> Seq<Seq<char>> {
    keywords_of(tokens_spec(text, false))
}

/// Stemming touches nothing but a final plural `s`: a word that does not end in `s` (the empty
/// word included), or that is at most three bytes long in UTF-8, comes back whole, and a longer
/// word ending in `s` comes back without that last character and is otherwise unchanged.
pub proof fn lemma_stem_only_drops_plural_s(w: Seq<char>)
    ensures
        w.len() == 0 || w.last() != 's' ==> stem_spec(w) == w,
        vstd::utf8::encode_utf8(w).len() <= 3 ==> stem_spec(w) == w,
        w.len() > 0 && w.last() == 's' && vstd::utf8::encode_utf8(w).len() > 3
            ==> stem_spec(w) == w.subrange(0, w.len() - 1),
        stem_spec(w) == w || (w.len() > 0 && w.last() == 's' && stem_spec(w) == w.subrange(0, w.len() - 1)),
{
}

/// No keyword is a stop word. A single token gives no keyword when it is one of the stop
/// words below and its stem otherwise, and the keywords of two runs of tokens put together
/// are the keywords of the first followed by those of the second: so every token that is not
/// a stop word gives its stem, in order, and no other keyword is produced.
pub proof fn lemma_keywords_skip_stop_words(a: Seq<Seq<char>>, b: Seq<Seq<char>>, w: Seq<char>)
    ensures
        keywords_of(seq![w]) == (if {
            w == "what"@
            || w == "is"@
            || w == "the"@
            || w == "a"@
            || w == "an"@
            || w == "who"@
            || w == "how"@
            || w == "do"@
            || w == "does"@
            || w == "are"@
            || w == "was"@
            || w == "were"@
            || w == "in"@
            || w == "of"@
            || w == "to"@
            || w == "it"@
            || w == "i"@
            || w == "you"@
            || w == "and"@
            || w == "or"@
            || w == "but"@
            || w == "with"@
            || w == "me"@
            || w == "my"@
            || w == "tell"@
            || w == "about"@
            || w == "on"@
            || w == "for"@
            || w == "that"@
            || w == "this"@
            || w == "can"@
            || w == "using"@
            || w == "whats"@
            || w == "its"@
            || w == "mean"@
            || w == "means"@
            || w == "meaning"@
            || w == "define"@
            || w == "definition"@
            || w == "word"@
            || w == "wassup"@
            || w == "sup"@
        } {
            Seq::<Seq<char>>::empty()
        } else {
            seq![stem_spec(w)]
        }),
        keywords_of(a + b) == keywords_of(a) + keywords_of(b),
{
    let one = seq![w];
    assert(one.drop_last() == Seq::<Seq<char>>::empty());
    assert(one.last() == w);
    assert(keywords_of(one.drop_last()) == Seq::<Seq<char>>::empty());
    assert(Seq::<Seq<char>>::empty().push(stem_spec(w)) == seq![stem_spec(w)]);
    lemma_keywords_concat(a, b);
}

proof fn lemma_keywords_concat(a: Seq<Seq<char>>, b: Seq<Seq<char>>)
    ensures
        keywords_of(a + b) == keywords_of(a) + keywords_of(b),
    decreases b.len(),
{
    if b.len() == 0 {
        assert(a + b == a);
        assert(keywords_of(a) + keywords_of(b) == keywords_of(a));
    } else {
        lemma_keywords_concat(a, b.drop_last());
        assert((a + b).drop_last() == a + b.drop_last());
        assert((a + b).last() == b.last());
        let ka = keywords_of(a);
        let kb = keywords_of(b.drop_last());
        if !is_stop_word(b.last()) {
            assert((ka + kb).push(stem_spec(b.last())) == ka + kb.push(stem_spec(b.last())));
        }
    }
}

/// A one-character word ending in `s` is a single byte long, so stemming never empties a word.
proof fn lemma_stem_nonempty(w: Seq<char>)
    requires
        w.len() > 0,
    ensures
        stem_spec(w).len() > 0,
        forall|k: int| 0 <= k < stem_spec(w).len() ==> #[trigger] stem_spec(w)[k] == w[k],
{
    if w.len() == 1 && w.last() == 's' {
        assert(w.drop_first().len() == 0);
        assert(vstd::utf8::encode_utf8(w) == vstd::utf8::encode_scalar(w[0] as u32)
            + vstd::utf8::encode_utf8(w.drop_first()));
        assert(vstd::utf8::encode_utf8(w).len() == 1);
    }
}

/// Every keyword is the stem of a token that is not a stop word, so it is nonempty and holds
/// no whitespace or stripped punctuation.
proof fn lemma_keywords_of(ws: Seq<Seq<char>>)
    requires
        forall|i: int| 0 <= i < ws.len() ==> is_token(#[trigger] ws[i], false),
    ensures
        forall|i: int| 0 <= i < keywords_of(ws).len() ==> is_token(#[trigger] keywords_of(ws)[i], false),
        forall|i: int| 0 <= i < keywords_of(ws).len() ==> exists|j: int| 0 <= j < ws.len()
            && !is_stop_word(ws[j]) && #[trigger] keywords_of(ws)[i] == stem_spec(ws[j]),
    decreases ws.len(),
{
    if ws.len() > 0 {
        let p = ws.drop_last();
        assert forall|i: int| 0 <= i < p.len() implies is_token(#[trigger] p[i], false) by {
            assert(p[i] == ws[i]);
        }
        lemma_keywords_of(p);
        let rest = keywords_of(p);
        let last = ws.last();
        assert(ws[ws.len() - 1] == last);
        assert forall|i: int| 0 <= i < rest.len() implies exists|j: int| 0 <= j < ws.len()
            && !is_stop_word(ws[j]) && #[trigger] rest[i] == stem_spec(ws[j]) by {
            let j = choose|j: int| 0 <= j < p.len() && !is_stop_word(p[j]) && rest[i] == stem_spec(p[j]);
            assert(ws[j] == p[j]);
        }
        if !is_stop_word(last) {
            assert(is_token(last, false));
            lemma_stem_nonempty(last);
            let st = stem_spec(last);
            assert forall|k: int| 0 <= k < st.len() implies !crate::text::is_white_space(#[trigger] st[k])
                && !crate::text::is_stripped(st[k], false) by {
                assert(st[k] == last[k]);
            }
            assert(is_token(st, false));
        }
    }
}

/// The keywords of `text`: its tokens, minus stop words, each stemmed.
pub fn keywords(text: &str) -> (r: Vec<String>)
    ensures
        string_views(r@) == keywords_spec(text@),
        forall|i: int| 0 <= i < r@.len() ==> is_token(#[trigger] r@[i]@, false),
        forall|i: int| 0 <= i < r@.len() ==> exists|j: int| 0 <= j < tokens_spec(text@, false).len()
            && !is_stop_word(tokens_spec(text@, false)[j])
            && #[trigger] r@[i]@ == stem_spec(tokens_spec(text@, false)[j]),
{
    let toks = tokenize_text(text, false);
    let mut out: Vec<String> = Vec::new();
    let n = toks.len();
    assert(string_views(toks@).len() == n);
    for i in 0..n
        invariant
            n == toks@.len(),
            string_views(toks@) == tokens_spec(text@, false),
            string_views(out@) == keywords_of(string_views(toks@).take(i as int)),
    {
        let ghost ws = string_views(toks@);
        assert(ws.take(i + 1).drop_last() == ws.take(i as int));
        assert(ws.take(i + 1).last() == toks@[i as int]@);
        let cs = chars_of(toks[i].as_str());
        if !stop_word(&cs) {
            let st = stem(toks[i].as_str());
            let ghost before = out@;
            out.push(st);
            assert(string_views(out@) == string_views(before).push(st@));
        }
    }
    proof {
        let ws = string_views(toks@);
        assert(ws.take(n as int) == ws);
        assert forall|i: int| 0 <= i < ws.len() implies is_token(#[trigger] ws[i], false) by {
            assert(ws[i] == toks@[i]@);
        }
        lemma_keywords_of(ws);
        assert forall|i: int| 0 <= i < out@.len() implies is_token(#[trigger] out@[i]@, false) by {
            assert(string_views(out@)[i] == out@[i]@);
        }
        assert forall|i: int| 0 <= i < out@.len() implies exists|j: int| 0 <= j < ws.len()
            && !is_stop_word(ws[j]) && #[trigger] out@[i]@ == stem_spec(ws[j]) by {
            assert(string_views(out@)[i] == out@[i]@);
            assert(out@[i]@ == keywords_of(ws)[i]);
            let j = choose|j: int| 0 <= j < ws.len() && !is_stop_word(ws[j])
                && #[trigger] keywords_of(ws)[i] == stem_spec(ws[j]);
            assert(out@[i]@ == stem_spec(ws[j]));
        }
    }
    out
}

/// The classifier's input for `text`: the hashed bag-of-words counts of its keywords over
/// `dim` buckets, or nothing when the text has no keywords.
pub fn keyword_bag(text: &str, dim: usize) -> (r: Option<Vec<usize>>)
    requires
        dim > 0,
    ensures
        match r {
            None => keywords_spec(text@).len() == 0,
            Some(c) => {
                &&& keywords_spec(text@).len() > 0
                &&& c@.len() == dim
                &&& forall|b: int| 0 <= b < dim ==> #[trigger] c@[b] == crate::text::bucket_count(keywords_spec(text@), dim as nat, b as nat)
            },
        },
{
    let toks = keywords(text);
    assert(string_views(toks@).len() == toks@.len());
    if toks.len() == 0 {
        return None;
    }
    Some(crate::text::hashed_counts(&toks, dim))
}

/// Word order does not matter to the classifier: two texts whose keywords are a permutation of
/// each other (for instance "Orbit of the Moon?" and "moon orbit") give the same bag of words,
/// or both give none.
pub proof fn lemma_keyword_bag_ignores_order(t1: Seq<char>, t2: Seq<char>, dim: nat)
    requires
        keywords_spec(t1).to_multiset() == keywords_spec(t2).to_multiset(),
    ensures
        keywords_spec(t1).len() == keywords_spec(t2).len(),
        forall|b: nat| #[trigger] crate::text::bucket_count(keywords_spec(t1), dim, b)
            == crate::text::bucket_count(keywords_spec(t2), dim, b),
{
    broadcast use vstd::seq_lib::group_to_multiset_ensures;

    assert(keywords_spec(t1).to_multiset().len() == keywords_spec(t1).len());
    assert(keywords_spec(t2).to_multiset().len() == keywords_spec(t2).len());
    assert forall|b: nat| #[trigger] crate::text::bucket_count(keywords_spec(t1), dim, b)
        == crate::text::bucket_count(keywords_spec(t2), dim, b) by {
        crate::text::lemma_bucket_count_permutation(keywords_spec(t1), keywords_spec(t2), dim, b);
    }
}

// ---------------------------------------------------------------------------
// The training set
// ---------------------------------------------------------------------------

/// A fact as the frontend sends it.
#[derive(Debug)]
pub struct FactInput {
    pub topic: String,
    pub question: String,
    pub answer: String,
}

/// One training example: a list of words and the index of the output it should produce (for
/// the classifier, a fact's keywords and its topic; for the generator, three words of context
/// and the word that follows them).
#[derive(Debug)]
pub struct Sample {
    pub tokens: Vec<String>,
    pub label: usize,
}

impl View for Sample {
    type V = (Seq<Seq<char>>, nat);

    open spec fn view(&self) -> (Seq<Seq<char>>, nat) {
        (string_views(self.tokens@), self.label as nat)
    }
}

/// The views of a sequence of samples.
pub open spec fn sample_views(v: Seq<Sample>) -> Seq<(Seq<Seq<char>>, nat)> {
    v.map_values(|x: Sample| x@)
}

/// How many facts have topic `t`.
pub open spec fn topic_count(facts: Seq<FactInput>, t: Seq<char>) -> nat
    decreases facts.len(),
{
    if facts.len() == 0 {
        0
    } else {
        topic_count(facts.drop_last(), t) + (if facts.last().topic@ == t { 1nat } else { 0nat })
    }
}

/// A topic worth classifying: one with at least two facts.
pub open spec fn is_class(facts: Seq<FactInput>, t: Seq<char>) -> bool {
    topic_count(facts, t) >= 2
}

/// `cls` lists exactly the topics with at least two facts, in ascending order.
pub open spec fn is_class_list(facts: Seq<FactInput>, cls: Seq<Seq<char>>) -> bool {
    &&& strictly_sorted(cls)
    &&& forall|k: int| 0 <= k < cls.len() ==> is_class(facts, #[trigger] cls[k])
    &&& forall|t: Seq<char>| is_class(facts, t) ==> cls.contains(t)
}

/// How many of the facts in `part` have a topic that is a class of `all`.
pub open spec fn class_fact_count(all: Seq<FactInput>, part: Seq<FactInput>) -> nat
    decreases part.len(),
{
    if part.len() == 0 {
        0
    } else {
        class_fact_count(all, part.drop_last()) + (if is_class(all, part.last().topic@) {
            1nat
        } else {
            0nat
        })
    }
}

/// The facts with topic `t`, in input order.
pub open spec fn facts_on(facts: Seq<FactInput>, t: Seq<char>) -> Seq<FactInput>
    decreases facts.len(),
{
    if facts.len() == 0 {
        seq![]
    } else if facts.last().topic@ == t {
        facts_on(facts.drop_last(), t).push(facts.last())
    } else {
        facts_on(facts.drop_last(), t)
    }
}

/// The first `n` elements of `s`, or all of them when there are fewer.
pub open spec fn first_n<A>(s: Seq<A>, n: nat) -> Seq<A> {
    if s.len() <= n {
        s
    } else {
        s.take(n as int)
    }
}

/// The most facts of one topic that go into the training set.
pub const MAX_FACTS_PER_TOPIC: usize = 200;

/// How many characters of an answer go into a sample's text.
pub const ANSWER_PREFIX_CHARS: usize = 120;

/// The text a fact is learned from: its question, a space, and the first 120 characters of
/// its answer.
pub open spec fn sample_text(f: FactInput) -> Seq<char> {
    f.question@ + seq![' '] + first_n(f.answer@, ANSWER_PREFIX_CHARS as nat)
}

/// The samples of topic `t`, labelled `label`: the first 200 facts on it, as keywords.
pub open spec fn class_samples(facts: Seq<FactInput>, t: Seq<char>, label: nat) -> Seq<(Seq<Seq<char>>, nat)> {
    first_n(facts_on(facts, t), MAX_FACTS_PER_TOPIC as nat).map_values(
        |f: FactInput| (keywords_spec(sample_text(f)), label),
    )
}

/// The samples of every class in turn, each labelled with its index in `cls`.
pub open spec fn all_samples(facts: Seq<FactInput>, cls: Seq<Seq<char>>) -> Seq<(Seq<Seq<char>>, nat)>
    decreases cls.len(),
{
    if cls.len() == 0 {
        seq![]
    } else {
        all_samples(facts, cls.drop_last()) + class_samples(facts, cls.last(), (cls.len() - 1) as nat)
    }
}

/// A topic with facts is the topic of one of them.
proof fn lemma_counted_topic_occurs(facts: Seq<FactInput>, t: Seq<char>)
    requires
        topic_count(facts, t) > 0,
    ensures
        exists|j: int| 0 <= j < facts.len() && (#[trigger] facts[j]).topic@ == t,
    decreases facts.len(),
{
    if facts.last().topic@ == t {
        assert(facts[facts.len() - 1].topic@ == t);
    } else {
        lemma_counted_topic_occurs(facts.drop_last(), t);
        let j = choose|j: int| 0 <= j < facts.drop_last().len() && (#[trigger] facts.drop_last()[j]).topic@ == t;
        assert(facts[j] == facts.drop_last()[j]);
    }
}

/// How many facts have topic `t`.
pub fn count_topic(facts: &Vec<FactInput>, t: &String) -> (r: usize)
    ensures
        r == topic_count(facts@, t@),
{
    let n = facts.len();
    let mut c: usize = 0;
    for i in 0..n
        invariant
            n == facts@.len(),
            c == topic_count(facts@.take(i as int), t@),
            c <= i,
    {
        assert(facts@.take(i + 1).drop_last() == facts@.take(i as int));
        if facts[i].topic == *t {
            c = c + 1;
        }
    }
    assert(facts@.take(n as int) == facts@);
    c
}

/// The topics with at least two facts, in ascending order.
pub fn topic_classes(facts: &Vec<FactInput>) -> (r: Vec<String>)
    ensures
        is_class_list(facts@, string_views(r@)),
{
    let n = facts.len();
    let mut classes: Vec<String> = Vec::new();
    for i in 0..n
        invariant
            n == facts@.len(),
            strictly_sorted(string_views(classes@)),
            forall|k: int| 0 <= k < classes@.len() ==> is_class(facts@, #[trigger] classes@[k]@),
            forall|j: int| 0 <= j < i && is_class(facts@, (#[trigger] facts@[j]).topic@)
                ==> string_views(classes@).contains(facts@[j].topic@),
    {
        let c = count_topic(facts, &facts[i].topic);
        if c >= 2 && !contains_string(&classes, &facts[i].topic) {
            let ghost before = classes@;
            insert_sorted(&mut classes, facts[i].topic.clone());
            proof {
                assert forall|k: int| 0 <= k < classes@.len() implies is_class(facts@, #[trigger] classes@[k]@) by {
                    assert(string_views(classes@).contains(classes@[k]@)) by {
                        assert(string_views(classes@)[k] == classes@[k]@);
                    }
                    if string_views(before).contains(classes@[k]@) {
                        let m = choose|m: int| 0 <= m < before.len() && string_views(before)[m] == classes@[k]@;
                        assert(string_views(before)[m] == before[m]@);
                    }
                }
            }
        }
    }
    proof {
        let cls = string_views(classes@);
        assert forall|k: int| 0 <= k < cls.len() implies is_class(facts@, #[trigger] cls[k]) by {
            assert(cls[k] == classes@[k]@);
        }
        assert forall|t: Seq<char>| is_class(facts@, t) implies cls.contains(t) by {
            lemma_counted_topic_occurs(facts@, t);
            let j = choose|j: int| 0 <= j < facts@.len() && (#[trigger] facts@[j]).topic@ == t;
        }
    }
    classes
}

/// How many facts belong to a topic with at least two facts.
pub fn class_fact_total(facts: &Vec<FactInput>) -> (r: usize)
    ensures
        r == class_fact_count(facts@, facts@),
{
    let n = facts.len();
    let mut total: usize = 0;
    for i in 0..n
        invariant
            n == facts@.len(),
            total == class_fact_count(facts@, facts@.take(i as int)),
            total <= i,
    {
        assert(facts@.take(i + 1).drop_last() == facts@.take(i as int));
        let c = count_topic(facts, &facts[i].topic);
        if c >= 2 {
            total = total + 1;
        }
    }
    assert(facts@.take(n as int) == facts@);
    total
}

/// The text a fact is learned from.
pub fn fact_sample_text(f: &FactInput) -> (r: String)
    ensures
        r@ == sample_text(*f),
{
    let mut cs = chars_of(f.question.as_str());
    cs.push(' ');
    let a = chars_of(f.answer.as_str());
    let m = if a.len() <= ANSWER_PREFIX_CHARS { a.len() } else { ANSWER_PREFIX_CHARS };
    let ghost start = cs@;
    for k in 0..m
        invariant
            m <= a@.len(),
            cs@ == start + a@.take(k as int),
    {
        cs.push(a[k]);
        assert(a@.take(k + 1) == a@.take(k as int).push(a@[k as int]));
    }
    proof {
        assert(a@.take(m as int) == first_n(f.answer@, ANSWER_PREFIX_CHARS as nat));
        assert(start == f.question@ + seq![' ']);
    }
    string_of(&cs)
}

/// Adding a fact to the end of the facts extends the samples of a topic by that fact's sample
/// exactly when the fact is on the topic and the topic has fewer than 200 samples so far.
proof fn lemma_class_samples_step(facts: Seq<FactInput>, j: int, t: Seq<char>, label: nat)
    requires
        0 <= j < facts.len(),
    ensures
        class_samples(facts.take(j + 1), t, label) == (if facts[j].topic@ == t
            && facts_on(facts.take(j), t).len() < MAX_FACTS_PER_TOPIC {
            class_samples(facts.take(j), t, label).push(
                (keywords_spec(sample_text(facts[j])), label),
            )
        } else {
            class_samples(facts.take(j), t, label)
        }),
{
    let p = facts.take(j);
    let q = facts.take(j + 1);
    assert(q.drop_last() == p);
    assert(q.last() == facts[j]);
    let g = |f: FactInput| (keywords_spec(sample_text(f)), label);
    let fp = facts_on(p, t);
    if facts[j].topic@ == t {
        assert(facts_on(q, t) == fp.push(facts[j]));
        if fp.len() < MAX_FACTS_PER_TOPIC {
            assert(first_n(fp.push(facts[j]), 200) == first_n(fp, 200).push(facts[j]));
            assert(first_n(fp, 200).push(facts[j]).map_values(g) =~= first_n(fp, 200).map_values(g).push(g(facts[j])));
        } else {
            assert(first_n(fp.push(facts[j]), 200) =~= first_n(fp, 200));
        }
    } else {
        assert(facts_on(q, t) == fp);
    }
}

/// The training samples: for each class in order, the keywords of its first 200 facts'
/// texts, labelled with the class's index.
pub fn training_samples(facts: &Vec<FactInput>, classes: &Vec<String>) -> (r: Vec<Sample>)
    ensures
        sample_views(r@) == all_samples(facts@, string_views(classes@)),
{
    let n = facts.len();
    let m = classes.len();
    let ghost cls = string_views(classes@);
    let mut out: Vec<Sample> = Vec::new();
    for ti in 0..m
        invariant
            n == facts@.len(),
            m == classes@.len(),
            cls == string_views(classes@),
            sample_views(out@) == all_samples(facts@, cls.take(ti as int)),
    {
        let ghost base = out@;
        let ghost t = classes@[ti as int]@;
        let mut taken: usize = 0;
        assert(facts@.take(0) =~= Seq::<FactInput>::empty());
        assert(class_samples(facts@.take(0), t, ti as nat) =~= Seq::empty());
        assert(sample_views(out@) =~= sample_views(base) + class_samples(facts@.take(0), t, ti as nat));
        for j in 0..n
            invariant
                n == facts@.len(),
                m == classes@.len(),
                ti < m,
                t == classes@[ti as int]@,
                sample_views(base) == all_samples(facts@, cls.take(ti as int)),
                sample_views(out@) == sample_views(base) + class_samples(facts@.take(j as int), t, ti as nat),
                taken as nat == first_n(facts_on(facts@.take(j as int), t), MAX_FACTS_PER_TOPIC as nat).len(),
        {
            proof {
                lemma_class_samples_step(facts@, j as int, t, ti as nat);
                let p = facts@.take(j as int);
                let q = facts@.take(j + 1);
                assert(q.drop_last() == p);
                assert(q.last() == facts@[j as int]);
            }
            if facts[j].topic == classes[ti] && taken < MAX_FACTS_PER_TOPIC {
                let text = fact_sample_text(&facts[j]);
                let toks = keywords(text.as_str());
                let ghost before = out@;
                let smp = Sample { tokens: toks, label: ti };
                out.push(smp);
                assert(sample_views(out@) == sample_views(before).push(smp@));
                taken = taken + 1;
            }
        }
        proof {
            assert(facts@.take(n as int) == facts@);
            assert(cls.take(ti + 1).drop_last() == cls.take(ti as int));
            assert(cls.take(ti + 1).last() == t);
        }
    }
    assert(cls.take(m as int) == cls);
    out
}

// ---------------------------------------------------------------------------
// Network sizes, training schedule and results
// ---------------------------------------------------------------------------

/// `(input_dim, hidden1, hidden2)` for a size mode: "large" and "ultra" have their own sizes,
/// anything else is "standard".
pub open spec fn tier_dims_spec(size_mode: Seq<char>) -> (usize, usize, usize) {
    if size_mode == "large"@ {
        (4096, 1024, 512)
    } else if size_mode == "ultra"@ {
        (8192, 2048, 1024)
    } else {
        (2048, 512, 256)
    }
}

/// The network dimensions for a size mode.
pub fn tier_dims(size_mode: &str) -> (r: (usize, usize, usize))
    ensures
        r == tier_dims_spec(size_mode@),
{
    if str_is(size_mode, "large") {
        (4096, 1024, 512)
    } else if str_is(size_mode, "ultra") {
        (8192, 2048, 1024)
    } else {
        (2048, 512, 256)
    }
}

/// The number of passes over `n` samples: 60000 sample visits, held to 10..=28 passes.
pub fn training_epochs(n: usize) -> (r: usize)
    ensures
        r == epoch_count_spec(60000, n as nat, 10, 28),
        10 <= r <= 28,
{
    epoch_count(60000, n, 10, 28)
}

/// The stride of the self-test: every sample when there are at most 300, otherwise every
/// `n / 300`-th.
pub open spec fn grade_step(n: nat) -> nat {
    if n > 300 {
        n / 300
    } else {
        1
    }
}

/// The indices of the samples that the self-test grades: `0, s, 2s, ...` below `n`, where
/// `s` is `grade_step(n)`.
pub fn graded_indices(n: usize) -> (r: Vec<usize>)
    ensures
        forall|k: int| 0 <= k < r@.len() ==> #[trigger] r@[k] == k * grade_step(n as nat),
        forall|k: int| 0 <= k < r@.len() ==> #[trigger] r@[k] < n,
        r@.len() * grade_step(n as nat) >= n,
{
    let step: usize = if n > 300 { n / 300 } else { 1 };
    let mut r: Vec<usize> = Vec::new();
    let mut i: usize = 0;
    let mut done = false;
    while i < n && !done
        invariant
            step == grade_step(n as nat),
            step >= 1,
            !done ==> i == r@.len() * step,
            forall|k: int| 0 <= k < r@.len() ==> #[trigger] r@[k] == k * step,
            forall|k: int| 0 <= k < r@.len() ==> #[trigger] r@[k] < n,
            done ==> r@.len() * step >= n,
        decreases n - i + (if done { 0int } else { 1int }),
    {
        let ghost len0 = r@.len();
        assert(i == len0 * step);
        r.push(i);
        assert(r@[len0 as int] == len0 * step);
        if n - i <= step {
            done = true;
            assert(r@.len() * step == len0 * step + step) by (nonlinear_arith)
                requires r@.len() == len0 + 1;
        } else {
            assert(r@.len() * step == len0 * step + step) by (nonlinear_arith)
                requires r@.len() == len0 + 1;
            i = i + step;
        }
    }
    r
}

/// The outcome of a training request, as the frontend sees it.
#[derive(Debug, Clone)]
pub struct TrainResult {
    pub trained: bool,
    pub params: usize,
    pub dim: usize,
    pub h1: usize,
    pub h2: usize,
    pub classes: usize,
    pub accuracy: u32,
    pub trained_on: usize,
    pub message: String,
}

/// A topic prediction and its confidence in percent.
#[derive(Debug)]
pub struct Prediction {
    pub topic: String,
    pub confidence: u32,
}

/// The reply when there is too little to train on.
pub fn untrained_result() -> (r: TrainResult)
    ensures
        !r.trained,
        r.params == 0 && r.dim == 0 && r.h1 == 0 && r.h2 == 0,
        r.classes == 0 && r.accuracy == 0 && r.trained_on == 0,
        r.message@ == "Need at least 2 topics with a few facts each before training."@,
{
    TrainResult {
        trained: false,
        params: 0,
        dim: 0,
        h1: 0,
        h2: 0,
        classes: 0,
        accuracy: 0,
        trained_on: 0,
        message: String::from_str("Need at least 2 topics with a few facts each before training."),
    }
}

/// The message that reports a trained network.
pub open spec fn trained_message(
    params: nat,
    dim: nat,
    h1: nat,
    h2: nat,
    classes: nat,
    accuracy: nat,
    total: nat,
) -> Seq<char> {
    "Trained a native network: "@ + decimal_spec(params) + " parameters ("@ + decimal_spec(dim)
        + " inputs -> "@ + decimal_spec(h1) + " -> "@ + decimal_spec(h2) + " -> "@
        + decimal_spec(classes) + " topics), "@ + decimal_spec(accuracy)
        + "% self-test accuracy on "@ + decimal_spec(total) + " facts."@
}

/// The reply after training a network with the given shape and self-test accuracy.
pub fn trained_result(
    params: usize,
    dim: usize,
    h1: usize,
    h2: usize,
    classes: usize,
    accuracy: u32,
    trained_on: usize,
) -> (r: TrainResult)
    ensures
        r.trained,
        r.params == params && r.dim == dim && r.h1 == h1 && r.h2 == h2,
        r.classes == classes && r.accuracy == accuracy && r.trained_on == trained_on,
        r.message@ == trained_message(
            params as nat,
            dim as nat,
            h1 as nat,
            h2 as nat,
            classes as nat,
            accuracy as nat,
            trained_on as nat,
        ),
{
    let mut m = String::new();
    push_text(&mut m, "Trained a native network: ");
    push_decimal(&mut m, params as u64);
    push_text(&mut m, " parameters (");
    push_decimal(&mut m, dim as u64);
    push_text(&mut m, " inputs -> ");
    push_decimal(&mut m, h1 as u64);
    push_text(&mut m, " -> ");
    push_decimal(&mut m, h2 as u64);
    push_text(&mut m, " -> ");
    push_decimal(&mut m, classes as u64);
    push_text(&mut m, " topics), ");
    push_decimal(&mut m, accuracy as u64);
    push_text(&mut m, "% self-test accuracy on ");
    push_decimal(&mut m, trained_on as u64);
    push_text(&mut m, " facts.");
    TrainResult { trained: true, params, dim, h1, h2, classes, accuracy, trained_on, message: m }
}

// ---------------------------------------------------------------------------
// Deciding whether to train, and on what
// ---------------------------------------------------------------------------

/// The fewest topics a classifier is trained between.
pub const MIN_CLASSES: usize = 2;

/// The fewest facts (within those topics) a classifier is trained on.
pub const MIN_TRAINING_FACTS: usize = 10;

/// What a network is trained on: its classes in order, how many facts they hold, and the
/// labelled samples.
#[derive(Debug)]
pub struct TrainingSet {
    pub classes: Vec<String>,
    pub total: usize,
    pub samples: Vec<Sample>,
}

/// There is only one list of classes: the topics with at least two facts, in ascending order.
pub proof fn lemma_class_list_unique(facts: Seq<FactInput>, a: Seq<Seq<char>>, b: Seq<Seq<char>>)
    requires
        is_class_list(facts, a),
        is_class_list(facts, b),
    ensures
        a == b,
{
    assert forall|x: Seq<char>| a.contains(x) <==> b.contains(x) by {
        if a.contains(x) {
            let k = choose|k: int| 0 <= k < a.len() && a[k] == x;
            assert(is_class(facts, a[k]));
        }
        if b.contains(x) {
            let k = choose|k: int| 0 <= k < b.len() && b[k] == x;
            assert(is_class(facts, b[k]));
        }
    }
    lemma_sorted_same_elements(a, b);
}

/// The facts on a topic are as many as the topic's fact count, so a class contributes
/// `min(count, 200)` samples.
pub proof fn lemma_facts_on_count(facts: Seq<FactInput>, t: Seq<char>, label: nat)
    ensures
        facts_on(facts, t).len() == topic_count(facts, t),
        class_samples(facts, t, label).len() == if topic_count(facts, t) <= MAX_FACTS_PER_TOPIC {
            topic_count(facts, t)
        } else {
            MAX_FACTS_PER_TOPIC as nat
        },
    decreases facts.len(),
{
    if facts.len() > 0 {
        lemma_facts_on_count(facts.drop_last(), t, label);
    }
}

/// A topic's facts are all the facts with that topic, duplicates included, in input order,
/// and its fact count is how many there are.
pub proof fn lemma_facts_on_every_fact(facts: Seq<FactInput>, t: Seq<char>)
    ensures
        facts_on(facts, t) == facts.filter(|f: FactInput| f.topic@ == t),
        topic_count(facts, t) == facts.filter(|f: FactInput| f.topic@ == t).len(),
    decreases facts.len(),
{
    reveal(Seq::filter);
    if facts.len() > 0 {
        lemma_facts_on_every_fact(facts.drop_last(), t);
    }
}

/// The fact counts of the topics in `cls`, added up.
pub open spec fn sum_topic_counts(facts: Seq<FactInput>, cls: Seq<Seq<char>>) -> nat
    decreases cls.len(),
{
    if cls.len() == 0 {
        0
    } else {
        sum_topic_counts(facts, cls.drop_last()) + topic_count(facts, cls.last())
    }
}

/// How many entries of `cls` equal `t`.
spec fn matches_in(t: Seq<char>, cls: Seq<Seq<char>>) -> nat
    decreases cls.len(),
{
    if cls.len() == 0 {
        0
    } else {
        matches_in(t, cls.drop_last()) + (if cls.last() == t { 1nat } else { 0nat })
    }
}

proof fn lemma_matches_in(t: Seq<char>, cls: Seq<Seq<char>>)
    requires
        cls.no_duplicates(),
    ensures
        matches_in(t, cls) == (if cls.contains(t) { 1nat } else { 0nat }),
    decreases cls.len(),
{
    if cls.len() > 0 {
        let p = cls.drop_last();
        assert(p.no_duplicates());
        lemma_matches_in(t, p);
        assert(cls[cls.len() - 1] == cls.last());
        if p.contains(t) {
            let k = choose|k: int| 0 <= k < p.len() && p[k] == t;
            assert(cls[k] == t);
            assert(cls.contains(t));
        }
        if cls.contains(t) && !p.contains(t) {
            let k = choose|k: int| 0 <= k < cls.len() && cls[k] == t;
            if k < p.len() {
                assert(p[k] == t);
            }
        }
    }
}

proof fn lemma_sum_topic_counts_push(part: Seq<FactInput>, f: FactInput, cls: Seq<Seq<char>>)
    ensures
        sum_topic_counts(part.push(f), cls) == sum_topic_counts(part, cls) + matches_in(f.topic@, cls),
    decreases cls.len(),
{
    assert(part.push(f).drop_last() == part);
    if cls.len() > 0 {
        lemma_sum_topic_counts_push(part, f, cls.drop_last());
    }
}

/// The number of facts in class topics is the sum of the classes' fact counts (the way the
/// total is usually reckoned: topic by topic).
pub proof fn lemma_total_is_sum_of_class_counts(facts: Seq<FactInput>, cls: Seq<Seq<char>>)
    requires
        is_class_list(facts, cls),
    ensures
        class_fact_count(facts, facts) == sum_topic_counts(facts, cls),
{
    assert(cls.no_duplicates()) by {
        assert forall|i: int, j: int| 0 <= i < cls.len() && 0 <= j < cls.len() && i != j implies cls[i] != cls[j] by {
            if i < j {
                assert(crate::order::lex_lt(cls[i], cls[j]));
            } else {
                assert(crate::order::lex_lt(cls[j], cls[i]));
            }
            crate::order::lemma_lex_irreflexive(cls[i]);
        }
    }
    lemma_class_count_prefix(facts, facts, cls);
}

proof fn lemma_class_count_prefix(all: Seq<FactInput>, part: Seq<FactInput>, cls: Seq<Seq<char>>)
    requires
        is_class_list(all, cls),
        cls.no_duplicates(),
    ensures
        class_fact_count(all, part) == sum_topic_counts(part, cls),
    decreases part.len(),
{
    if part.len() == 0 {
        lemma_sum_topic_counts_empty(part, cls);
    } else {
        let p = part.drop_last();
        let f = part.last();
        lemma_class_count_prefix(all, p, cls);
        lemma_sum_topic_counts_push(p, f, cls);
        assert(p.push(f) == part);
        lemma_matches_in(f.topic@, cls);
        if cls.contains(f.topic@) {
            let k = choose|k: int| 0 <= k < cls.len() && cls[k] == f.topic@;
            assert(is_class(all, cls[k]));
        }
    }
}

proof fn lemma_sum_topic_counts_empty(part: Seq<FactInput>, cls: Seq<Seq<char>>)
    requires
        part.len() == 0,
    ensures
        sum_topic_counts(part, cls) == 0,
    decreases cls.len(),
{
    if cls.len() > 0 {
        lemma_sum_topic_counts_empty(part, cls.drop_last());
    }
}

/// Every sample is labelled with the index of a class, and each class gives at most 200
/// samples.
pub proof fn lemma_sample_labels(facts: Seq<FactInput>, cls: Seq<Seq<char>>)
    ensures
        forall|i: int| 0 <= i < all_samples(facts, cls).len() ==> (#[trigger] all_samples(facts, cls)[i]).1 < cls.len(),
        all_samples(facts, cls).len() <= MAX_FACTS_PER_TOPIC * cls.len(),
    decreases cls.len(),
{
    if cls.len() > 0 {
        let p = cls.drop_last();
        lemma_sample_labels(facts, p);
        let a = all_samples(facts, p);
        let c = class_samples(facts, cls.last(), (cls.len() - 1) as nat);
        assert(all_samples(facts, cls) == a + c);
        assert forall|i: int| 0 <= i < (a + c).len() implies (#[trigger] (a + c)[i]).1 < cls.len() by {
            if i < a.len() {
                assert((a + c)[i] == a[i]);
            } else {
                assert((a + c)[i] == c[i - a.len()]);
            }
        }
        assert(c.len() <= MAX_FACTS_PER_TOPIC);
        assert(MAX_FACTS_PER_TOPIC * cls.len() == MAX_FACTS_PER_TOPIC * p.len() + MAX_FACTS_PER_TOPIC);
    }
}

/// Groups the facts by topic and decides whether there is enough to train a classifier: at
/// least two topics with two or more facts each, holding at least ten facts between them. When
/// there is, returns the topics in ascending order, their fact count and the samples.
pub fn prepare_training(facts: &Vec<FactInput>) -> (r: Option<TrainingSet>)
    ensures
        match r {
            Some(ts) => {
                &&& is_class_list(facts@, string_views(ts.classes@))
                &&& ts.classes@.len() >= MIN_CLASSES
                &&& ts.total == class_fact_count(facts@, facts@)
                &&& ts.total >= MIN_TRAINING_FACTS
                &&& sample_views(ts.samples@) == all_samples(facts@, string_views(ts.classes@))
            },
            None => forall|cls: Seq<Seq<char>>|
                is_class_list(facts@, cls) ==> cls.len() < MIN_CLASSES || class_fact_count(facts@, facts@)
                    < MIN_TRAINING_FACTS,
        },
{
    let classes = topic_classes(facts);
    let total = class_fact_total(facts);
    if classes.len() < MIN_CLASSES || total < MIN_TRAINING_FACTS {
        proof {
            assert forall|cls: Seq<Seq<char>>| is_class_list(facts@, cls) implies cls.len() < MIN_CLASSES
                || class_fact_count(facts@, facts@) < MIN_TRAINING_FACTS by {
                lemma_class_list_unique(facts@, cls, string_views(classes@));
            }
        }
        return None;
    }
    let samples = training_samples(facts, &classes);
    Some(TrainingSet { classes, total, samples })
}

} // verus!
