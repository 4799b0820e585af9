use vstd::prelude::*;

verus! {

broadcast use vstd::string::group_string_axioms;

// ---------------------------------------------------------------------------
// Names for what std computes on text
// ---------------------------------------------------------------------------

/// The Unicode lowercase mapping of a whole string, as `str::to_lowercase` computes it.
pub uninterp spec fn lowercase(s: Seq<char>) -> Seq<char>;

/// Calls `str::to_lowercase`. Its contract claims only that the result is a function of the
/// input's characters (the Unicode lowercase mapping, which is not written out here).
#[verifier::external_body]
pub(crate) fn to_lowercase(s: &str) -> (r: String)
    ensures
        r@ == lowercase(s@),
{
    s.to_lowercase()
}

/// Whether a character has the Unicode `White_Space` property (the characters that
/// `char::is_whitespace` and `str::split_whitespace` treat as whitespace): tab, line feed,
/// vertical tab, form feed, carriage return, space, next line, no-break space, ogham space mark,
/// the spaces U+2000 to U+200A, line and paragraph separators, narrow no-break space, medium
/// mathematical space and ideographic space.
pub open spec fn is_white_space(c: char) -> bool {
    let u = c as u32;
    ||| 0x09 <= u && u <= 0x0D
    ||| u == 0x20
    ||| u == 0x85
    ||| u == 0xA0
    ||| u == 0x1680
    ||| 0x2000 <= u && u <= 0x200A
    ||| u == 0x2028
    ||| u == 0x2029
    ||| u == 0x202F
    ||| u == 0x205F
    ||| u == 0x3000
}

/// Whether `c` is whitespace.
pub fn is_whitespace_char(c: char) -> (r: bool)
    ensures
        r == is_white_space(c),
{
    let u = c as u32;
    (0x09 <= u && u <= 0x0D) || u == 0x20 || u == 0x85 || u == 0xA0 || u == 0x1680 || (0x2000 <= u
        && u <= 0x200A) || u == 0x2028 || u == 0x2029 || u == 0x202F || u == 0x205F || u == 0x3000
}

/// Calls `String::push`, which appends one character.
#[verifier::external_body]
pub(crate) fn push_char(s: &mut String, c: char)
    ensures
        final(s)@ == old(s)@.push(c),
{
    s.push(c);
}

/// The characters of a string slice, in order.
pub fn chars_of(s: &str) -> (r: Vec<char>)
    ensures
        r@ == s@,
{
    let mut r: Vec<char> = Vec::new();
    for c in it: s.chars()
        invariant
            r@ == it.seq().take(it.index() as int),
    {
        r.push(c);
    }
    r
}

/// The string holding exactly the given characters.
pub fn string_of(cs: &Vec<char>) -> (r: String)
    ensures
        r@ == cs@,
{
    let mut r = String::new();
    let n = cs.len();
    for i in 0..n
        invariant
            n == cs@.len(),
            r@ == cs@.take(i as int),
    {
        push_char(&mut r, cs[i]);
        assert(cs@.take(i + 1) == cs@.take(i as int).push(cs@[i as int]));
    }
    assert(cs@.take(n as int) == cs@);
    r
}

/// Whether two character sequences are equal.
pub fn chars_eq(a: &Vec<char>, b: &Vec<char>) -> (r: bool)
    ensures
        r == (a@ == b@),
{
    if a.len() != b.len() {
        return false;
    }
    let n = a.len();
    for i in 0..n
        invariant
            n == a@.len(),
            n == b@.len(),
            forall|j: int| 0 <= j < i ==> a@[j] == b@[j],
    {
        if a[i] != b[i] {
            return false;
        }
    }
    assert(a@ =~= b@);
    true
}

/// Whether the characters `w` spell `lit`.
pub fn chars_are(w: &Vec<char>, lit: &str) -> (r: bool)
    ensures
        r == (w@ == lit@),
{
    let l = chars_of(lit);
    chars_eq(w, &l)
}

/// Whether `s` and `lit` hold the same characters.
pub fn str_is(s: &str, lit: &str) -> (r: bool)
    ensures
        r == (s@ == lit@),
{
    let c = chars_of(s);
    chars_are(&c, lit)
}

// ---------------------------------------------------------------------------
// Punctuation stripping
// ---------------------------------------------------------------------------

/// The characters that text cleaning removes: `? ! . , ; : ' "`, where the period is
/// kept when `keep_period` holds.
pub open spec fn is_stripped(c: char, keep_period: bool) -> bool {
    ||| c == '?'
    ||| c == '!'
    ||| (c == '.' && !keep_period)
    ||| c == ','
    ||| c == ';'
    ||| c == ':'
    ||| c == '\''
    ||| c == '"'
}

/// `s` with every stripped character removed, the others kept in order.
pub open spec fn strip_punctuation(s: Seq<char>, keep_period: bool) -> Seq<char>
    decreases s.len(),
{
    if s.len() == 0 {
        seq![]
    } else {
        let rest = strip_punctuation(s.drop_last(), keep_period);
        if is_stripped(s.last(), keep_period) {
            rest
        } else {
            rest.push(s.last())
        }
    }
}

/// What cleaning gives for `text`: lowercase it, then strip punctuation.
pub open spec fn clean_spec(text: Seq<char>, keep_period: bool) -> Seq<char> {
    strip_punctuation(lowercase(text), keep_period)
}

/// Whether `c` is one of the stripped characters (exec form of `is_stripped`).
pub fn stripped_char(c: char, keep_period: bool) -> (r: bool)
    ensures
        r == is_stripped(c, keep_period),
{
    c == '?' || c == '!' || (c == '.' && !keep_period) || c == ',' || c == ';' || c == ':'
        || c == '\'' || c == '"'
}

/// Removes the stripped characters from `s`.
pub fn strip_punctuation_exec(s: &str, keep_period: bool) -> (r: String)
    ensures
        r@ == strip_punctuation(s@, keep_period),
{
    let cs = chars_of(s);
    let mut out: Vec<char> = Vec::new();
    let n = cs.len();
    for i in 0..n
        invariant
            n == cs@.len(),
            out@ == strip_punctuation(cs@.take(i as int), keep_period),
    {
        assert(cs@.take(i + 1).drop_last() == cs@.take(i as int));
        if !stripped_char(cs[i], keep_period) {
            out.push(cs[i]);
        }
    }
    assert(cs@.take(n as int) == cs@);
    string_of(&out)
}

/// Lowercases `text` and removes the characters `? ! , ; : ' "`, and also `.` unless
/// `keep_period` holds.
pub fn clean_text(text: &str, keep_period: bool) -> (r: String)
    ensures
        r@ == clean_spec(text@, keep_period),
{
    let low = to_lowercase(text);
    strip_punctuation_exec(low.as_str(), keep_period)
}

/// Lowercases `text` and removes the characters `? ! . , ; : ' "`.
pub fn clean(text: &str) -> (r: String)
    ensures
        r@ == clean_spec(text@, false),
{
    clean_text(text, false)
}

/// Cleaning removes exactly the characters `? ! . , ; : ' "` (the period only when it is not
/// kept): stripping keeps every other character, hyphens and digits and letters alike, in its
/// order, and cleaning is stripping of the lowercased text.
pub proof fn lemma_strip_keeps_all_else(s: Seq<char>, text: Seq<char>, keep_period: bool)
    ensures
        strip_punctuation(s, keep_period) == s.filter(
            |c: char|
                !(c == '?' || c == '!' || (c == '.' && !keep_period) || c == ',' || c == ';'
                    || c == ':' || c == '\'' || c == '"'),
        ),
        clean_spec(text, keep_period) == lowercase(text).filter(
            |c: char|
                !(c == '?' || c == '!' || (c == '.' && !keep_period) || c == ',' || c == ';'
                    || c == ':' || c == '\'' || c == '"'),
        ),
{
    lemma_strip_is_filter(s, keep_period);
    lemma_strip_is_filter(lowercase(text), keep_period);
}

proof fn lemma_strip_is_filter(s: Seq<char>, keep_period: bool)
    ensures
        strip_punctuation(s, keep_period) == s.filter(
            |c: char|
                !(c == '?' || c == '!' || (c == '.' && !keep_period) || c == ',' || c == ';'
                    || c == ':' || c == '\'' || c == '"'),
        ),
    decreases s.len(),
{
    reveal(Seq::filter);
    if s.len() > 0 {
        lemma_strip_is_filter(s.drop_last(), keep_period);
    }
}

/// No stripped character survives stripping, and every surviving character was in the input.
pub proof fn lemma_strip_punctuation(s: Seq<char>, keep_period: bool)
    ensures
        forall|i: int|
            0 <= i < strip_punctuation(s, keep_period).len() ==> {
                &&& !is_stripped(#[trigger] strip_punctuation(s, keep_period)[i], keep_period)
                &&& s.contains(strip_punctuation(s, keep_period)[i])
            },
    decreases s.len(),
{
    if s.len() > 0 {
        lemma_strip_punctuation(s.drop_last(), keep_period);
        let rest = strip_punctuation(s.drop_last(), keep_period);
        assert forall|i: int| 0 <= i < rest.len() implies s.contains(#[trigger] rest[i]) by {
            let k = choose|k: int| 0 <= k < s.drop_last().len() && s.drop_last()[k] == rest[i];
            assert(s[k] == rest[i]);
        }
        assert(s[s.len() - 1] == s.last());
    }
}

// ---------------------------------------------------------------------------
// Splitting on whitespace
// ---------------------------------------------------------------------------

/// The views of a sequence of strings.
pub open spec fn string_views(v: Seq<String>) -> Seq<Seq<char>> {
    v.map_values(|x: String| x@)
}

/// Scanning `s` from the left: the words finished so far and the word being read.
pub open spec fn scan_words(s: Seq<char>) -> (Seq<Seq<char>>, Seq<char>)
    decreases s.len(),
{
    if s.len() == 0 {
        (seq![], seq![])
    } else {
        let (done, cur) = scan_words(s.drop_last());
        if is_white_space(s.last()) {
            if cur.len() > 0 {
                (done.push(cur), seq![])
            } else {
                (done, seq![])
            }
        } else {
            (done, cur.push(s.last()))
        }
    }
}

/// The maximal runs of non-whitespace characters of `s`, in order (what `str::split_whitespace`
/// yields).
pub open spec fn split_whitespace(s: Seq<char>) -> Seq<Seq<char>> {
    let (done, cur) = scan_words(s);
    if cur.len() > 0 {
        done.push(cur)
    } else {
        done
    }
}

/// A word drawn from `s`: not empty, free of whitespace, and made of characters of `s`.
pub open spec fn is_word_of(w: Seq<char>, s: Seq<char>) -> bool {
    &&& w.len() > 0
    &&& forall|k: int| 0 <= k < w.len() ==> !is_white_space(#[trigger] w[k]) && s.contains(w[k])
}

proof fn lemma_scan_words(s: Seq<char>)
    ensures
        forall|i: int|
            0 <= i < scan_words(s).0.len() ==> is_word_of(#[trigger] scan_words(s).0[i], s),
        forall|k: int|
            0 <= k < scan_words(s).1.len() ==> !is_white_space(#[trigger] scan_words(s).1[k])
                && s.contains(scan_words(s).1[k]),
    decreases s.len(),
{
    if s.len() > 0 {
        let p = s.drop_last();
        lemma_scan_words(p);
        assert(s[s.len() - 1] == s.last());
        assert forall|c: char| p.contains(c) implies s.contains(c) by {
            let k = choose|k: int| 0 <= k < p.len() && p[k] == c;
            assert(s[k] == c);
        }
        let (done, cur) = scan_words(p);
        assert forall|i: int| 0 <= i < done.len() implies is_word_of(#[trigger] done[i], s) by {
            assert(is_word_of(done[i], p));
        }
        if !is_white_space(s.last()) {
            let cur2 = cur.push(s.last());
            assert forall|k: int| 0 <= k < cur2.len() implies !is_white_space(#[trigger] cur2[k])
                && s.contains(cur2[k]) by {
                if k < cur.len() {
                    assert(cur2[k] == cur[k]);
                }
            }
        } else if cur.len() > 0 {
            assert(is_word_of(cur, s));
        }
    }
}

/// Every piece that splitting on whitespace yields is a word drawn from the input.
pub proof fn lemma_split_whitespace(s: Seq<char>)
    ensures
        forall|i: int|
            0 <= i < split_whitespace(s).len() ==> is_word_of(#[trigger] split_whitespace(s)[i], s),
{
    lemma_scan_words(s);
}

/// The words joined with single spaces.
pub open spec fn join_words(ws: Seq<Seq<char>>) -> Seq<char>
    decreases ws.len(),
{
    if ws.len() == 0 {
        seq![]
    } else if ws.len() == 1 {
        ws[0]
    } else {
        join_words(ws.drop_last()) + seq![' '] + ws.last()
    }
}

/// Reading characters without whitespace extends the word being read.
proof fn lemma_scan_append_word(s: Seq<char>, t: Seq<char>)
    requires
        forall|k: int| 0 <= k < t.len() ==> !is_white_space(#[trigger] t[k]),
    ensures
        scan_words(s + t) == (scan_words(s).0, scan_words(s).1 + t),
    decreases t.len(),
{
    if t.len() == 0 {
        assert(s + t =~= s);
        assert(scan_words(s).1 + t =~= scan_words(s).1);
    } else {
        let t0 = t.drop_last();
        lemma_scan_append_word(s, t0);
        assert((s + t).drop_last() =~= s + t0);
        assert((s + t).last() == t[t.len() - 1]);
        assert(scan_words(s).1 + t0 + seq![t.last()] =~= scan_words(s).1 + t);
        assert((scan_words(s).1 + t0).push(t.last()) =~= scan_words(s).1 + t);
    }
}

/// Words joined with single spaces split back into the same words: a space separates words.
pub proof fn lemma_split_joined_words(ws: Seq<Seq<char>>)
    requires
        forall|i: int| 0 <= i < ws.len() ==> (#[trigger] ws[i]).len() > 0,
        forall|i: int, k: int| 0 <= i < ws.len() && 0 <= k < ws[i].len() ==> !is_white_space(#[trigger] ws[i][k]),
    ensures
        split_whitespace(join_words(ws)) == ws,
{
    if ws.len() == 0 {
        assert(split_whitespace(join_words(ws)) =~= ws);
    } else {
        lemma_scan_joined_words(ws);
        assert(ws.drop_last().push(ws.last()) =~= ws);
    }
}

proof fn lemma_scan_joined_words(ws: Seq<Seq<char>>)
    requires
        ws.len() > 0,
        forall|i: int| 0 <= i < ws.len() ==> (#[trigger] ws[i]).len() > 0,
        forall|i: int, k: int| 0 <= i < ws.len() && 0 <= k < ws[i].len() ==> !is_white_space(#[trigger] ws[i][k]),
    ensures
        scan_words(join_words(ws)) == (ws.drop_last(), ws.last()),
    decreases ws.len(),
{
    let e = Seq::<char>::empty();
    let last = ws.last();
    assert(ws[ws.len() - 1] == last);
    assert forall|k: int| 0 <= k < last.len() implies !is_white_space(#[trigger] last[k]) by {
        assert(ws[ws.len() - 1][k] == last[k]);
    }
    if ws.len() == 1 {
        lemma_scan_append_word(e, ws[0]);
        assert(e + ws[0] =~= ws[0]);
        assert(Seq::<char>::empty() + ws[0] =~= ws[0]);
        assert(ws.drop_last() =~= Seq::<Seq<char>>::empty());
    } else {
        let p = ws.drop_last();
        assert forall|i: int| 0 <= i < p.len() implies (#[trigger] p[i]).len() > 0 by {
            assert(p[i] == ws[i]);
        }
        assert forall|i: int, k: int| 0 <= i < p.len() && 0 <= k < p[i].len() implies !is_white_space(#[trigger] p[i][k]) by {
            assert(p[i] == ws[i]);
        }
        lemma_scan_joined_words(p);
        let jp = join_words(p);
        let sp = jp + seq![' '];
        assert(sp.drop_last() =~= jp);
        assert(sp.last() == ' ');
        assert(p.last() == p[p.len() - 1]);
        assert(scan_words(sp) == (p.drop_last().push(p.last()), e));
        assert(p.drop_last().push(p.last()) =~= p);
        lemma_scan_append_word(sp, last);
        assert(e + last =~= last);
        assert(join_words(ws) == sp + last);
    }
}

/// Splits `s` at runs of whitespace, keeping the nonempty pieces in order.
pub fn split_words(s: &str) -> (r: Vec<String>)
    ensures
        string_views(r@) == split_whitespace(s@),
{
    let cs = chars_of(s);
    let mut done: Vec<String> = Vec::new();
    let mut cur: Vec<char> = Vec::new();
    let n = cs.len();
    for i in 0..n
        invariant
            n == cs@.len(),
            (string_views(done@), cur@) == scan_words(cs@.take(i as int)),
    {
        assert(cs@.take(i + 1).drop_last() == cs@.take(i as int));
        assert(cs@.take(i + 1).last() == cs@[i as int]);
        let c = cs[i];
        if is_whitespace_char(c) {
            if cur.len() > 0 {
                let w = string_of(&cur);
                let ghost before = done@;
                done.push(w);
                assert(string_views(done@) == string_views(before).push(w@));
                cur = Vec::new();
            } else {
                cur = Vec::new();
            }
        } else {
            cur.push(c);
        }
    }
    assert(cs@.take(n as int) == cs@);
    if cur.len() > 0 {
        let w = string_of(&cur);
        let ghost before = done@;
        done.push(w);
        assert(string_views(done@) == string_views(before).push(w@));
    }
    done
}

// ---------------------------------------------------------------------------
// Tokens
// ---------------------------------------------------------------------------

/// The tokens of `text`: the whitespace-separated words of its cleaned form.
pub open spec fn tokens_spec(text: Seq<char>, keep_period: bool) -> Seq<Seq<char>> {
    split_whitespace(clean_spec(text, keep_period))
}

/// A token: nonempty, and free of whitespace and of every stripped character.
pub open spec fn is_token(w: Seq<char>, keep_period: bool) -> bool {
    &&& w.len() > 0
    &&& forall|k: int|
        0 <= k < w.len() ==> !is_white_space(#[trigger] w[k]) && !is_stripped(w[k], keep_period)
}

/// Every token of a text is nonempty and holds neither whitespace nor stripped punctuation.
pub proof fn lemma_tokens_are_clean(text: Seq<char>, keep_period: bool)
    ensures
        forall|i: int|
            0 <= i < tokens_spec(text, keep_period).len() ==> is_token(
                #[trigger] tokens_spec(text, keep_period)[i],
                keep_period,
            ),
{
    let c = clean_spec(text, keep_period);
    lemma_split_whitespace(c);
    lemma_strip_punctuation(lowercase(text), keep_period);
    assert forall|i: int| 0 <= i < tokens_spec(text, keep_period).len() implies is_token(
        #[trigger] tokens_spec(text, keep_period)[i],
        keep_period,
    ) by {
        let w = tokens_spec(text, keep_period)[i];
        assert(is_word_of(w, c));
        assert forall|k: int| 0 <= k < w.len() implies !is_white_space(#[trigger] w[k])
            && !is_stripped(w[k], keep_period) by {
            assert(c.contains(w[k]));
            let j = choose|j: int| 0 <= j < c.len() && c[j] == w[k];
            assert(!is_stripped(c[j], keep_period));
        }
    }
}

/// Cleans `text` and splits it into its whitespace-separated tokens.
pub fn tokenize_text(text: &str, keep_period: bool) -> (r: Vec<String>)
    ensures
        string_views(r@) == tokens_spec(text@, keep_period),
        forall|i: int| 0 <= i < r@.len() ==> is_token(#[trigger] r@[i]@, keep_period),
{
    let c = clean_text(text, keep_period);
    let r = split_words(c.as_str());
    proof {
        lemma_tokens_are_clean(text@, keep_period);
        assert forall|i: int| 0 <= i < r@.len() implies is_token(#[trigger] r@[i]@, keep_period) by {
            assert(string_views(r@)[i] == r@[i]@);
            assert(tokens_spec(text@, keep_period)[i] == r@[i]@);
            assert(is_token(tokens_spec(text@, keep_period)[i], keep_period));
        }
    }
    r
}

// ---------------------------------------------------------------------------
// Word hashing
// ---------------------------------------------------------------------------

/// The rolling hash of a byte string: start at 0, and for each byte multiply by 131 and add
/// the byte, both modulo 2^32.
pub open spec fn hash_bytes(b: Seq<u8>) -> u32
    decreases b.len(),
{
    if b.len() == 0 {
        0
    } else {
        vstd::wrapping::u32_specs::wrapping_add(
            vstd::wrapping::u32_specs::wrapping_mul(hash_bytes(b.drop_last()), 131),
            b.last() as u32,
        )
    }
}

/// The bucket in `0..dim` that a word lands in: its UTF-8 bytes' rolling hash modulo `dim`.
pub open spec fn bucket_of(word: Seq<char>, dim: nat) -> nat {
    (hash_bytes(vstd::utf8::encode_utf8(word)) as nat) % dim
}

/// The bucket in `0..dim` that `word` lands in.
pub fn hash_word(word: &str, dim: usize) -> (r: usize)
    requires
        dim > 0,
    ensures
        r == bucket_of(word@, dim as nat),
        r < dim,
{
    let bytes = word.as_bytes();
    let n = bytes.len();
    let mut h: u32 = 0;
    for i in 0..n
        invariant
            n == bytes@.len(),
            bytes@ == vstd::utf8::encode_utf8(word@),
            h == hash_bytes(bytes@.take(i as int)),
    {
        assert(bytes@.take(i + 1).drop_last() == bytes@.take(i as int));
        h = h.wrapping_mul(131).wrapping_add(bytes[i] as u32);
    }
    assert(bytes@.take(n as int) == bytes@);
    (h as usize) % dim
}

/// How many of the words `ws` land in bucket `b` of `dim`.
pub open spec fn bucket_count(ws: Seq<Seq<char>>, dim: nat, b: nat) -> nat
    decreases ws.len(),
{
    if ws.len() == 0 {
        0
    } else {
        bucket_count(ws.drop_last(), dim, b) + (if bucket_of(ws.last(), dim) == b { 1nat } else { 0nat })
    }
}

/// A word sequence has no more words in a bucket than words in all.
proof fn lemma_bucket_count_bound(ws: Seq<Seq<char>>, dim: nat, b: nat)
    ensures
        bucket_count(ws, dim, b) <= ws.len(),
    decreases ws.len(),
{
    if ws.len() > 0 {
        lemma_bucket_count_bound(ws.drop_last(), dim, b);
    }
}

proof fn lemma_bucket_count_remove(ws: Seq<Seq<char>>, i: int, dim: nat, b: nat)
    requires
        0 <= i < ws.len(),
    ensures
        bucket_count(ws, dim, b) == bucket_count(ws.remove(i), dim, b) + (if bucket_of(ws[i], dim) == b {
            1nat
        } else {
            0nat
        }),
    decreases ws.len(),
{
    if i == ws.len() - 1 {
        assert(ws.remove(i) =~= ws.drop_last());
    } else {
        lemma_bucket_count_remove(ws.drop_last(), i, dim, b);
        assert(ws.remove(i).drop_last() =~= ws.drop_last().remove(i));
        assert(ws.remove(i).last() == ws.last());
        assert(ws.drop_last()[i] == ws[i]);
    }
}

/// The bucket counts depend only on which words occur how often, not on their order: words
/// that are a permutation of each other give the same bag of words.
pub proof fn lemma_bucket_count_permutation(ws1: Seq<Seq<char>>, ws2: Seq<Seq<char>>, dim: nat, b: nat)
    requires
        ws1.to_multiset() == ws2.to_multiset(),
    ensures
        bucket_count(ws1, dim, b) == bucket_count(ws2, dim, b),
    decreases ws1.len(),
{
    broadcast use vstd::seq_lib::group_to_multiset_ensures;
    broadcast use vstd::multiset::group_multiset_axioms;

    if ws1.len() == 0 {
        assert(ws1.to_multiset().len() == ws1.len());
        assert(ws2.to_multiset().len() == ws2.len());
        assert(ws2.len() == 0);
    } else {
        let p = ws1.drop_last();
        let x = ws1.last();
        assert(p.push(x) =~= ws1);
        assert(ws1.to_multiset() =~= p.to_multiset().insert(x));
        assert(ws2.to_multiset().count(x) > 0);
        assert(ws2.contains(x));
        let i = choose|i: int| 0 <= i < ws2.len() && ws2[i] == x;
        assert(ws2.remove(i).to_multiset() =~= ws2.to_multiset().remove(x));
        assert(p.to_multiset().insert(x).remove(x) =~= p.to_multiset());
        lemma_bucket_count_permutation(p, ws2.remove(i), dim, b);
        lemma_bucket_count_remove(ws2, i, dim, b);
    }
}

/// The total of the counts of buckets `0..k`.
pub open spec fn counts_below(ws: Seq<Seq<char>>, dim: nat, k: nat) -> nat
    decreases k,
{
    if k == 0 {
        0
    } else {
        counts_below(ws, dim, (k - 1) as nat) + bucket_count(ws, dim, (k - 1) as nat)
    }
}

proof fn lemma_counts_below_push(ws: Seq<Seq<char>>, w: Seq<char>, dim: nat, k: nat)
    ensures
        counts_below(ws.push(w), dim, k) == counts_below(ws, dim, k) + (if bucket_of(w, dim) < k { 1nat } else { 0nat }),
    decreases k,
{
    assert(ws.push(w).drop_last() == ws);
    if k > 0 {
        lemma_counts_below_push(ws, w, dim, (k - 1) as nat);
    }
}

/// Every word lands in exactly one bucket: the bucket counts add up to the number of words.
pub proof fn lemma_bucket_counts_total(ws: Seq<Seq<char>>, dim: nat)
    requires
        dim > 0,
    ensures
        counts_below(ws, dim, dim) == ws.len(),
    decreases ws.len(),
{
    if ws.len() > 0 {
        let p = ws.drop_last();
        lemma_bucket_counts_total(p, dim);
        lemma_counts_below_push(p, ws.last(), dim, dim);
        assert(p.push(ws.last()) == ws);
    } else {
        lemma_counts_below_empty(ws, dim, dim);
    }
}

proof fn lemma_counts_below_empty(ws: Seq<Seq<char>>, dim: nat, k: nat)
    requires
        ws.len() == 0,
    ensures
        counts_below(ws, dim, k) == 0,
    decreases k,
{
    if k > 0 {
        lemma_counts_below_empty(ws, dim, (k - 1) as nat);
    }
}

/// The bag-of-words counts of `words` over `dim` hashed buckets: entry `b` is how many of the
/// words land in bucket `b`.
pub fn hashed_counts(words: &Vec<String>, dim: usize) -> (r: Vec<usize>)
    requires
        dim > 0,
    ensures
        r@.len() == dim,
        forall|b: int| 0 <= b < dim ==> #[trigger] r@[b] == bucket_count(string_views(words@), dim as nat, b as nat),
{
    let ghost ws = string_views(words@);
    let mut counts: Vec<usize> = Vec::new();
    for b in 0..dim
        invariant
            counts@.len() == b,
            forall|k: int| 0 <= k < b ==> #[trigger] counts@[k] == 0,
    {
        counts.push(0);
    }
    let n = words.len();
    for i in 0..n
        invariant
            n == words@.len(),
            ws == string_views(words@),
            dim > 0,
            counts@.len() == dim,
            forall|b: int| 0 <= b < dim ==> #[trigger] counts@[b] == bucket_count(ws.take(i as int), dim as nat, b as nat),
    {
        assert(ws.take(i + 1).drop_last() == ws.take(i as int));
        assert(ws.take(i + 1).last() == words@[i as int]@);
        let idx = hash_word(words[i].as_str(), dim);
        proof {
            lemma_bucket_count_bound(ws.take(i as int), dim as nat, idx as nat);
        }
        let c = counts[idx];
        counts.set(idx, c + 1);
    }
    assert(ws.take(n as int) == ws);
    counts
}

} // verus!
