use vstd::prelude::*;
use crate::text::string_views;

verus! {

// ---------------------------------------------------------------------------
// Word frequencies
// ---------------------------------------------------------------------------

/// How many times `w` occurs in `ws`.
pub open spec fn occurrences(ws: Seq<Seq<char>>, w: Seq<char>) -> nat
    decreases ws.len(),
{
    if ws.len() == 0 {
        0
    } else {
        occurrences(ws.drop_last(), w) + (if ws.last() == w { 1nat } else { 0nat })
    }
}

/// The different words of `ws`, in the order in which each first appears.
pub open spec fn distinct_words(ws: Seq<Seq<char>>) -> Seq<Seq<char>>
    decreases ws.len(),
{
    if ws.len() == 0 {
        seq![]
    } else if distinct_words(ws.drop_last()).contains(ws.last()) {
        distinct_words(ws.drop_last())
    } else {
        distinct_words(ws.drop_last()).push(ws.last())
    }
}

/// `a` ranks before `b` in the vocabulary of `ws`: it occurs more often, or as often and
/// appears first.
pub open spec fn ranks_before(ws: Seq<Seq<char>>, a: Seq<char>, b: Seq<char>) -> bool {
    let d = distinct_words(ws);
    ||| occurrences(ws, a) > occurrences(ws, b)
    ||| occurrences(ws, a) == occurrences(ws, b) && d.index_of(a) < d.index_of(b)
}

/// `v` is the vocabulary of `ws` capped at `cap` words: different words of `ws`, from the
/// most to the least frequent (ties in order of first appearance), leaving out only words
/// that rank after all of them, and only when the cap is reached.
pub open spec fn is_vocabulary(ws: Seq<Seq<char>>, cap: nat, v: Seq<Seq<char>>) -> bool {
    &&& v.len() <= cap
    &&& forall|i: int| 0 <= i < v.len() ==> ws.contains(#[trigger] v[i])
    &&& v.no_duplicates()
    &&& forall|i: int, j: int| 0 <= i < j < v.len() ==> ranks_before(ws, #[trigger] v[i], #[trigger] v[j])
    &&& forall|w: Seq<char>|
        ws.contains(w) && !v.contains(w) ==> v.len() == cap && forall|i: int|
            0 <= i < v.len() ==> ranks_before(ws, #[trigger] v[i], w)
}

/// The distinct words have no repeats and are exactly the words that occur.
pub proof fn lemma_distinct_words(ws: Seq<Seq<char>>)
    ensures
        distinct_words(ws).no_duplicates(),
        forall|w: Seq<char>| distinct_words(ws).contains(w) <==> ws.contains(w),
    decreases ws.len(),
{
    if ws.len() > 0 {
        let p = ws.drop_last();
        lemma_distinct_words(p);
        assert forall|w: Seq<char>| distinct_words(ws).contains(w) <==> ws.contains(w) by {
            if p.contains(w) {
                let k = choose|k: int| 0 <= k < p.len() && p[k] == w;
                assert(ws[k] == w);
            }
            if ws.contains(w) {
                let k = choose|k: int| 0 <= k < ws.len() && ws[k] == w;
                if k < p.len() {
                    assert(p[k] == w);
                } else {
                    assert(w == ws.last());
                }
            }
            if w == ws.last() {
                assert(ws[ws.len() - 1] == w);
            }
            if !distinct_words(p).contains(ws.last()) {
                let d = distinct_words(p).push(ws.last());
                if d.contains(w) {
                    let k = choose|k: int| 0 <= k < d.len() && d[k] == w;
                    if k < distinct_words(p).len() {
                        assert(distinct_words(p)[k] == w);
                    }
                }
                if distinct_words(p).contains(w) {
                    let k = choose|k: int| 0 <= k < distinct_words(p).len() && distinct_words(p)[k] == w;
                    assert(d[k] == w);
                }
                if w == ws.last() {
                    assert(d[d.len() - 1] == w);
                }
            }
        }
    }
}

/// A word that does not occur has no occurrences.
pub proof fn lemma_absent_no_occurrences(ws: Seq<Seq<char>>, w: Seq<char>)
    requires
        !ws.contains(w),
    ensures
        occurrences(ws, w) == 0,
    decreases ws.len(),
{
    if ws.len() > 0 {
        assert(ws[ws.len() - 1] == ws.last());
        assert(!ws.drop_last().contains(w)) by {
            if ws.drop_last().contains(w) {
                let k = choose|k: int| 0 <= k < ws.drop_last().len() && ws.drop_last()[k] == w;
                assert(ws[k] == w);
            }
        }
        lemma_absent_no_occurrences(ws.drop_last(), w);
    }
}

/// In a sequence without repeats, the position of an element is its index.
pub proof fn lemma_index_of_unique(d: Seq<Seq<char>>, k: int)
    requires
        d.no_duplicates(),
        0 <= k < d.len(),
    ensures
        d.index_of(d[k]) == k,
{
    assert(d.contains(d[k]));
}

/// Ranking is a strict order on the words of `ws`: never reflexive, and of two different
/// words exactly one ranks before the other.
pub proof fn lemma_ranks_before_strict(ws: Seq<Seq<char>>, a: Seq<char>, b: Seq<char>)
    requires
        ws.contains(a),
        ws.contains(b),
    ensures
        !ranks_before(ws, a, a),
        a != b ==> (ranks_before(ws, a, b) <==> !ranks_before(ws, b, a)),
{
    lemma_distinct_words(ws);
    let d = distinct_words(ws);
    assert(d.contains(a) && d.contains(b));
    let ia = d.index_of(a);
    let ib = d.index_of(b);
    assert(0 <= ia < d.len() && d[ia] == a);
    assert(0 <= ib < d.len() && d[ib] == b);
    if a != b {
        assert(ia != ib);
    }
}

/// Two sequences of different words of `ws`, each in ranking order and holding the same
/// words, are equal.
proof fn lemma_ranked_same_elements(ws: Seq<Seq<char>>, a: Seq<Seq<char>>, b: Seq<Seq<char>>)
    requires
        forall|i: int| 0 <= i < a.len() ==> ws.contains(#[trigger] a[i]),
        forall|i: int| 0 <= i < b.len() ==> ws.contains(#[trigger] b[i]),
        forall|i: int, j: int| 0 <= i < j < a.len() ==> ranks_before(ws, #[trigger] a[i], #[trigger] a[j]),
        forall|i: int, j: int| 0 <= i < j < b.len() ==> ranks_before(ws, #[trigger] b[i], #[trigger] b[j]),
        forall|x: Seq<char>| a.contains(x) <==> b.contains(x),
    ensures
        a == b,
    decreases a.len(),
{
    if a.len() == 0 {
        if b.len() > 0 {
            assert(b.contains(b[0]));
        }
        assert(a =~= b);
    } else {
        assert(a.contains(a[0]));
        assert(b.len() > 0);
        assert(b.contains(b[0]));
        if a[0] != b[0] {
            let k = choose|k: int| 0 <= k < b.len() && b[k] == a[0];
            let m = choose|m: int| 0 <= m < a.len() && a[m] == b[0];
            assert(ranks_before(ws, b[0], b[k]));
            assert(ranks_before(ws, a[0], a[m]));
            lemma_ranks_before_strict(ws, a[0], b[0]);
        }
        let a1 = a.drop_first();
        let b1 = b.drop_first();
        assert forall|x: Seq<char>| a1.contains(x) <==> b1.contains(x) by {
            if a1.contains(x) {
                let k = choose|k: int| 0 <= k < a1.len() && a1[k] == x;
                assert(a[k + 1] == x);
                assert(ranks_before(ws, a[0], a[k + 1]));
                lemma_ranks_before_strict(ws, x, x);
                assert(a.contains(x));
                let j = choose|j: int| 0 <= j < b.len() && b[j] == x;
                assert(j != 0);
                assert(b1[j - 1] == x);
            }
            if b1.contains(x) {
                let k = choose|k: int| 0 <= k < b1.len() && b1[k] == x;
                assert(b[k + 1] == x);
                assert(ranks_before(ws, b[0], b[k + 1]));
                lemma_ranks_before_strict(ws, x, x);
                assert(b.contains(x));
                let j = choose|j: int| 0 <= j < a.len() && a[j] == x;
                assert(j != 0);
                assert(a1[j - 1] == x);
            }
        }
        assert forall|i: int| 0 <= i < a1.len() implies ws.contains(#[trigger] a1[i]) by {
            assert(a1[i] == a[i + 1]);
        }
        assert forall|i: int| 0 <= i < b1.len() implies ws.contains(#[trigger] b1[i]) by {
            assert(b1[i] == b[i + 1]);
        }
        assert forall|i: int, j: int| 0 <= i < j < a1.len() implies ranks_before(ws, #[trigger] a1[i], #[trigger] a1[j]) by {
            assert(a1[i] == a[i + 1] && a1[j] == a[j + 1]);
        }
        assert forall|i: int, j: int| 0 <= i < j < b1.len() implies ranks_before(ws, #[trigger] b1[i], #[trigger] b1[j]) by {
            assert(b1[i] == b[i + 1] && b1[j] == b[j + 1]);
        }
        lemma_ranked_same_elements(ws, a1, b1);
        assert(a =~= seq![a[0]] + a1);
        assert(b =~= seq![b[0]] + b1);
    }
}

/// The vocabulary of a word sequence under a cap is unique.
pub proof fn lemma_vocabulary_unique(ws: Seq<Seq<char>>, cap: nat, v1: Seq<Seq<char>>, v2: Seq<Seq<char>>)
    requires
        is_vocabulary(ws, cap, v1),
        is_vocabulary(ws, cap, v2),
    ensures
        v1 == v2,
{
    assert forall|x: Seq<char>| v1.contains(x) <==> v2.contains(x) by {
        lemma_only_in_first(ws, cap, v1, v2, x);
        lemma_only_in_first(ws, cap, v2, v1, x);
    }
    lemma_ranked_same_elements(ws, v1, v2);
}

/// No word is in one vocabulary of `ws` under `cap` and missing from another.
proof fn lemma_only_in_first(ws: Seq<Seq<char>>, cap: nat, v1: Seq<Seq<char>>, v2: Seq<Seq<char>>, w: Seq<char>)
    requires
        is_vocabulary(ws, cap, v1),
        is_vocabulary(ws, cap, v2),
    ensures
        v1.contains(w) ==> v2.contains(w),
{
    if v1.contains(w) && !v2.contains(w) {
        lemma_missing_word_contradiction(ws, cap, v1, v2, w);
    }
}

proof fn lemma_missing_word_contradiction(ws: Seq<Seq<char>>, cap: nat, v1: Seq<Seq<char>>, v2: Seq<Seq<char>>, w: Seq<char>)
    requires
        is_vocabulary(ws, cap, v1),
        is_vocabulary(ws, cap, v2),
        v1.contains(w),
        !v2.contains(w),
    ensures
        v1.len() > cap,
{
    let k = choose|k: int| 0 <= k < v1.len() && v1[k] == w;
    assert(ws.contains(v1[k]));
    assert(v2.len() == cap);
    let s2 = v2.to_set().insert(w);
    let s1 = v1.to_set();
    assert forall|x: Seq<char>| s2.contains(x) implies s1.contains(x) by {
        if x == w {
            assert(v1.contains(w));
        } else {
            assert(v2.contains(x));
            let j = choose|j: int| 0 <= j < v2.len() && v2[j] == x;
            assert(ws.contains(v2[j]));
            assert(ranks_before(ws, v2[j], w));
            if !v1.contains(x) {
                assert(ranks_before(ws, v1[k], x));
                lemma_ranks_before_strict(ws, w, x);
            }
        }
    }
    v1.unique_seq_to_set();
    v2.unique_seq_to_set();
    vstd::seq_lib::seq_to_set_is_finite(v1);
    vstd::seq_lib::seq_to_set_is_finite(v2);
    assert(!v2.to_set().contains(w));
    vstd::set::axiom_set_insert_len(v2.to_set(), w);
    vstd::set_lib::lemma_len_subset(s2, s1);
}

/// The first position of `w` in `v` (meaningful when `v` contains `w`).
#[verifier::opaque]
pub open spec fn first_index(v: Seq<Seq<char>>, w: Seq<char>) -> int {
    choose|k: int| 0 <= k < v.len() && v[k] == w && forall|j: int| 0 <= j < k ==> v[j] != w
}

/// A position of `w` with no earlier `w` is its first position.
pub proof fn lemma_first_index(v: Seq<Seq<char>>, w: Seq<char>, k: int)
    requires
        0 <= k < v.len(),
        v[k] == w,
        forall|j: int| 0 <= j < k ==> v[j] != w,
    ensures
        first_index(v, w) == k,
{
    reveal(first_index);
    let f = first_index(v, w);
    assert(0 <= f < v.len() && v[f] == w && forall|j: int| 0 <= j < f ==> v[j] != w);
    if f < k {
        assert(v[f] != w);
    } else if f > k {
        assert(v[k] != w);
    }
}

/// When `v` contains `w`, its first position is a position of `w`.
pub proof fn lemma_first_index_exists(v: Seq<Seq<char>>, w: Seq<char>)
    requires
        v.contains(w),
    ensures
        0 <= first_index(v, w) < v.len(),
        v[first_index(v, w)] == w,
        forall|j: int| 0 <= j < first_index(v, w) ==> v[j] != w,
    decreases v.len(),
{
    if v[0] == w {
        lemma_first_index(v, w, 0);
    } else {
        let t = v.drop_first();
        let k = choose|k: int| 0 <= k < v.len() && v[k] == w;
        assert(t[k - 1] == w);
        lemma_first_index_exists(t, w);
        let f = first_index(t, w);
        assert(forall|j: int| 0 <= j < f ==> t[j] != w);
        assert forall|j: int| 0 <= j < f + 1 implies v[j] != w by {
            if j > 0 {
                assert(v[j] == t[j - 1]);
            }
        }
        lemma_first_index(v, w, f + 1);
    }
}

/// Where `w` stands in `v`, if it is there.
pub fn position_of(v: &Vec<String>, w: &String) -> (r: Option<usize>)
    ensures
        match r {
            Some(k) => {
                &&& k < v@.len()
                &&& v@[k as int]@ == w@
                &&& forall|j: int| 0 <= j < k ==> v@[j]@ != w@
                &&& k as int == first_index(string_views(v@), w@)
            },
            None => !string_views(v@).contains(w@),
        },
{
    let n = v.len();
    for k in 0..n
        invariant
            n == v@.len(),
            forall|j: int| 0 <= j < k ==> v@[j]@ != w@,
    {
        if v[k] == *w {
            proof {
                let sv = string_views(v@);
                assert forall|j: int| 0 <= j < k implies sv[j] != w@ by {
                    assert(sv[j] == v@[j]@);
                }
                lemma_first_index(sv, w@, k as int);
            }
            return Some(k);
        }
    }
    assert forall|j: int| 0 <= j < string_views(v@).len() implies string_views(v@)[j] != w@ by {
        assert(string_views(v@)[j] == v@[j]@);
    }
    None
}

/// The different words of `tokens` in order of first appearance, with how often each occurs.
pub fn word_counts(tokens: &Vec<String>) -> (r: (Vec<String>, Vec<usize>))
    ensures
        string_views(r.0@) == distinct_words(string_views(tokens@)),
        r.1@.len() == r.0@.len(),
        forall|k: int| 0 <= k < r.1@.len() ==> #[trigger] r.1@[k] == occurrences(
            string_views(tokens@),
            r.0@[k]@,
        ),
{
    let ghost ws = string_views(tokens@);
    let n = tokens.len();
    let mut words: Vec<String> = Vec::new();
    let mut counts: Vec<usize> = Vec::new();
    for i in 0..n
        invariant
            n == tokens@.len(),
            ws == string_views(tokens@),
            string_views(words@) == distinct_words(ws.take(i as int)),
            counts@.len() == words@.len(),
            forall|k: int| 0 <= k < counts@.len() ==> #[trigger] counts@[k] == occurrences(ws.take(i as int), words@[k]@),
            forall|k: int| 0 <= k < counts@.len() ==> #[trigger] counts@[k] <= i,
    {
        let ghost p = ws.take(i as int);
        let ghost q = ws.take(i + 1);
        assert(q.drop_last() == p);
        assert(q.last() == tokens@[i as int]@);
        proof {
            lemma_distinct_words(p);
        }
        match position_of(&words, &tokens[i]) {
            Some(k) => {
                assert(string_views(words@)[k as int] == words@[k as int]@);
                assert(distinct_words(p).contains(q.last()));
                let c = counts[k];
                counts.set(k, c + 1);
                assert forall|j: int| 0 <= j < counts@.len() implies #[trigger] counts@[j] == occurrences(q, words@[j]@) by {
                    if j != k {
                        assert(string_views(words@)[j] == words@[j]@);
                        assert(distinct_words(p).no_duplicates());
                    }
                }
            },
            None => {
                proof {
                    assert(!p.contains(q.last()));
                    lemma_absent_no_occurrences(p, q.last());
                }
                let ghost before = words@;
                let w = tokens[i].clone();
                words.push(w);
                counts.push(1);
                assert(string_views(words@) == string_views(before).push(w@));
                assert forall|j: int| 0 <= j < counts@.len() implies #[trigger] counts@[j] == occurrences(q, words@[j]@) by {
                    if j < before.len() {
                        assert(string_views(before)[j] == before[j]@);
                        assert(string_views(before).contains(before[j]@));
                        assert(words@[j]@ != q.last());
                    }
                }
            },
        }
    }
    assert(ws.take(n as int) == ws);
    (words, counts)
}

/// Index `a` ranks before index `b` among words with counts `cnt`: a higher count, or the
/// same count and an earlier index.
pub open spec fn better(cnt: Seq<usize>, a: int, b: int) -> bool {
    cnt[a] > cnt[b] || (cnt[a] == cnt[b] && a < b)
}

/// The vocabulary of `tokens`: its `cap` most frequent different words, most frequent first,
/// ties in order of first appearance.
pub fn build_vocab(tokens: &Vec<String>, cap: usize) -> (r: Vec<String>)
    ensures
        is_vocabulary(string_views(tokens@), cap as nat, string_views(r@)),
{
    let ghost ws = string_views(tokens@);
    let (words, counts) = word_counts(tokens);
    let ghost d = string_views(words@);
    let ghost cnt = counts@;
    let m = words.len();
    proof {
        lemma_distinct_words(ws);
    }
    let mut taken: Vec<bool> = Vec::new();
    for k in 0..m
        invariant
            taken@.len() == k,
            forall|j: int| 0 <= j < k ==> !taken@[j],
    {
        taken.push(false);
    }
    let mut out: Vec<String> = Vec::new();
    let ghost mut chosen: Seq<int> = seq![];
    let mut exhausted = false;
    while out.len() < cap && !exhausted
        invariant
            m == words@.len(),
            m == counts@.len(),
            cnt == counts@,
            d == string_views(words@),
            d == distinct_words(ws),
            d.no_duplicates(),
            forall|k: int| 0 <= k < m ==> #[trigger] cnt[k] == occurrences(ws, words@[k]@),
            taken@.len() == m,
            out@.len() == chosen.len(),
            out@.len() <= cap,
            forall|i: int| 0 <= i < chosen.len() ==> 0 <= #[trigger] chosen[i] < m,
            forall|i: int| 0 <= i < chosen.len() ==> (#[trigger] out@[i])@ == d[chosen[i]],
            forall|k: int| 0 <= k < m ==> (#[trigger] taken@[k] <==> chosen.contains(k)),
            forall|i: int, j: int| 0 <= i < j < chosen.len() ==> better(cnt, #[trigger] chosen[i], #[trigger] chosen[j]),
            forall|i: int, k: int| #![trigger chosen[i], taken@[k]] 0 <= i < chosen.len() && 0 <= k < m && !taken@[k] ==> better(cnt, chosen[i], k),
            exhausted ==> forall|k: int| 0 <= k < m ==> #[trigger] taken@[k],
        decreases cap - out@.len() + (if exhausted { 0int } else { 1int }),
    {
        let mut have = false;
        let mut best: usize = 0;
        for k in 0..m
            invariant
                m == words@.len(),
                m == counts@.len(),
                cnt == counts@,
                taken@.len() == m,
                have ==> best < k && !taken@[best as int],
                have ==> forall|j: int| 0 <= j < k && !taken@[j] && j != best ==> better(cnt, best as int, j),
                !have ==> forall|j: int| 0 <= j < k ==> taken@[j],
        {
            if !taken[k] {
                if !have || counts[k] > counts[best] {
                    proof {
                        if have {
                            assert forall|j: int| 0 <= j < k + 1 && !taken@[j] && j != k implies better(cnt, k as int, j) by {
                                if j != best {
                                    assert(better(cnt, best as int, j));
                                }
                            }
                        }
                    }
                    have = true;
                    best = k;
                }
            }
        }
        if have {
            let ghost before = out@;
            let ghost before_taken = taken@;
            let w = words[best].clone();
            out.push(w);
            taken.set(best, true);
            proof {
                assert(string_views(words@)[best as int] == words@[best as int]@);
                let old_chosen = chosen;
                chosen = chosen.push(best as int);
                assert forall|k: int| 0 <= k < m implies (#[trigger] taken@[k] <==> chosen.contains(k)) by {
                    if k == best {
                        assert(chosen[chosen.len() - 1] == k);
                    } else {
                        if chosen.contains(k) {
                            let i = choose|i: int| 0 <= i < chosen.len() && chosen[i] == k;
                            assert(i < old_chosen.len());
                            assert(old_chosen[i] == k);
                        }
                        if old_chosen.contains(k) {
                            let i = choose|i: int| 0 <= i < old_chosen.len() && old_chosen[i] == k;
                            assert(chosen[i] == k);
                        }
                    }
                }
                assert forall|i: int| 0 <= i < chosen.len() implies (#[trigger] out@[i])@ == d[chosen[i]] by {
                    if i < old_chosen.len() {
                        assert(out@[i] == before[i]);
                    }
                }
                assert forall|i: int, j: int| 0 <= i < j < chosen.len() implies better(cnt, #[trigger] chosen[i], #[trigger] chosen[j]) by {
                    if j == old_chosen.len() {
                        assert(!before_taken[best as int]);
                        assert(better(cnt, old_chosen[i], best as int));
                    } else {
                        assert(chosen[i] == old_chosen[i] && chosen[j] == old_chosen[j]);
                    }
                }
                assert forall|i: int, k: int| #![trigger chosen[i], taken@[k]] 0 <= i < chosen.len() && 0 <= k < m && !taken@[k] implies better(cnt, chosen[i], k) by {
                    assert(k != best);
                    assert(!before_taken[k]);
                    if i == old_chosen.len() {
                        assert(chosen[i] == best);
                    } else {
                        assert(chosen[i] == old_chosen[i]);
                    }
                }
            }
        } else {
            exhausted = true;
        }
    }
    proof {
        let v = string_views(out@);
        assert forall|i: int| 0 <= i < v.len() implies ws.contains(#[trigger] v[i]) by {
            assert(v[i] == out@[i]@);
            assert(d.contains(d[chosen[i]]));
        }
        assert forall|i: int, j: int| 0 <= i < v.len() && 0 <= j < v.len() && i != j implies v[i] != v[j] by {
            assert(v[i] == d[chosen[i]] && v[j] == d[chosen[j]]);
            if i < j {
                assert(better(cnt, chosen[i], chosen[j]));
            } else {
                assert(better(cnt, chosen[j], chosen[i]));
            }
        }
        assert forall|i: int, j: int| 0 <= i < j < v.len() implies ranks_before(ws, #[trigger] v[i], #[trigger] v[j]) by {
            assert(v[i] == d[chosen[i]] && v[j] == d[chosen[j]]);
            assert(better(cnt, chosen[i], chosen[j]));
            lemma_index_of_unique(d, chosen[i]);
            lemma_index_of_unique(d, chosen[j]);
            assert(string_views(words@)[chosen[i]] == words@[chosen[i]]@);
            assert(string_views(words@)[chosen[j]] == words@[chosen[j]]@);
        }
        assert forall|w: Seq<char>| ws.contains(w) && !v.contains(w) implies v.len() == cap && forall|i: int|
            0 <= i < v.len() ==> ranks_before(ws, #[trigger] v[i], w) by {
            assert(d.contains(w));
            let k = choose|k: int| 0 <= k < d.len() && d[k] == w;
            if taken@[k] {
                let i = choose|i: int| 0 <= i < chosen.len() && chosen[i] == k;
                assert(v[i] == w);
            }
            assert(!exhausted);
            assert forall|i: int| 0 <= i < v.len() implies ranks_before(ws, #[trigger] v[i], w) by {
                assert(v[i] == d[chosen[i]]);
                assert(better(cnt, chosen[i], k));
                lemma_index_of_unique(d, chosen[i]);
                lemma_index_of_unique(d, k);
                assert(string_views(words@)[chosen[i]] == words@[chosen[i]]@);
                assert(string_views(words@)[k] == words@[k]@);
            }
        }
    }
    out
}

} // verus!
