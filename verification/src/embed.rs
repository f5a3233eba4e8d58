//! The hashing half of the simple text embedder: which output positions
//! the words and character n-grams of a text fall into.
//!
//! The embedder lowercases the text, then adds 1 at the position of each
//! whitespace-separated word, 0.5 at that of each pair of adjacent
//! characters and 0.25 at that of each run of three; the position of a
//! piece is its string hash modulo the dimension. This module counts the
//! pieces per position; weighting and normalising the counts is left to
//! the caller.

use vstd::prelude::*;
use vstd::string::StrSliceExecFns;
use std::collections::hash_map::DefaultHasher;
use std::hash::{BuildHasher, BuildHasherDefault};
use crate::config::SimpleEmbedder;
use crate::filter::{chars_of, is_space, is_space_char};

verus! {

/// The hash that a `DefaultHasher` made by `DefaultHasher::new` gives the
/// string `s`.
pub uninterp spec fn default_str_hash(s: Seq<char>) -> u64;

/// Calls `BuildHasher::hash_one` on a `BuildHasherDefault<DefaultHasher>`,
/// which hashes `s` with a `DefaultHasher` made by `DefaultHasher::new`
/// (fixed keys, so the same string always gets the same hash in a build).
/// The contract names the result; the hash function is not stated.
#[verifier::external_body]
fn hash_str(s: &str) -> (r: u64)
    ensures
        r == default_str_hash(s@),
{
    BuildHasherDefault::<DefaultHasher>::default().hash_one(s)
}

/// What `str::to_lowercase` gives for the text `s`.
pub uninterp spec fn lowercase(s: Seq<char>) -> Seq<char>;

/// Calls `str::to_lowercase`. The contract names the result; the Unicode
/// case mapping is not stated.
#[verifier::external_body]
fn to_lowercase(s: &str) -> (r: String)
    ensures
        r@ == lowercase(s@),
{
    s.to_lowercase()
}

/// End of the word (run of non-whitespace characters) that starts at `i`.
pub open spec fn word_end(s: Seq<char>, i: int) -> int
    decreases s.len() - i,
{
    if 0 <= i < s.len() && !is_space(s[i]) {
        word_end(s, i + 1)
    } else {
        i
    }
}

/// A word ends within the text, after it starts.
pub proof fn lemma_word_end_bounds(s: Seq<char>, i: int)
    ensures
        0 <= i <= s.len() ==> i <= word_end(s, i) <= s.len(),
    decreases s.len() - i,
{
    if 0 <= i < s.len() && !is_space(s[i]) {
        lemma_word_end_bounds(s, i + 1);
    }
}

/// The position a piece whose hash is `h` falls into.
pub open spec fn bucket(h: u64, dim: int) -> int {
    (h as int) % dim
}

/// The positions of the words of `s` from `i` on, in order: the words are
/// the maximal runs of non-whitespace characters (`str::split_whitespace`).
pub open spec fn word_buckets_from(s: Seq<char>, i: int, dim: int) -> Seq<int>
    decreases s.len() - i,
{
    if i < 0 || i >= s.len() {
        seq![]
    } else if is_space(s[i]) {
        word_buckets_from(s, i + 1, dim)
    } else {
        let e = word_end(s, i);
        proof {
            lemma_word_end_bounds(s, i + 1);
        }
        seq![bucket(default_str_hash(s.subrange(i, e)), dim)] + word_buckets_from(s, e, dim)
    }
}

/// Where a word ends depends only on the text from where it starts.
proof fn lemma_word_end_shift(s: Seq<char>, k: int, i: int)
    requires
        0 <= k <= i,
        k <= s.len(),
    ensures
        word_end(s, i) == word_end(s.skip(k), i - k) + k,
    decreases s.len() - i,
{
    if 0 <= i < s.len() {
        assert(s.skip(k)[i - k] == s[i]);
        if !is_space(s[i]) {
            lemma_word_end_shift(s, k, i + 1);
        }
    }
}

/// The words from `i` on depend only on the text from `i` on.
proof fn lemma_word_buckets_shift(s: Seq<char>, k: int, i: int, dim: int)
    requires
        0 <= k <= i,
        k <= s.len(),
    ensures
        word_buckets_from(s, i, dim) == word_buckets_from(s.skip(k), i - k, dim),
    decreases s.len() - i,
{
    if 0 <= i < s.len() {
        assert(s.skip(k)[i - k] == s[i]);
        if is_space(s[i]) {
            lemma_word_buckets_shift(s, k, i + 1, dim);
        } else {
            let e = word_end(s, i);
            lemma_word_end_bounds(s, i + 1);
            lemma_word_end_shift(s, k, i);
            lemma_word_buckets_shift(s, k, e, dim);
            assert(s.subrange(i, e) =~= s.skip(k).subrange(i - k, e - k));
        }
    }
}

/// A run of non-whitespace characters that the end of the text or a
/// whitespace character closes is one word.
proof fn lemma_word_end_run(s: Seq<char>, i: int, j: int)
    requires
        0 <= i <= j <= s.len(),
        forall|q: int| i <= q < j ==> !is_space(#[trigger] s[q]),
        j == s.len() || is_space(s[j]),
    ensures
        word_end(s, i) == j,
    decreases j - i,
{
    if i < j {
        lemma_word_end_run(s, i + 1, j);
    }
}

/// A text with no words has no word positions.
pub proof fn lemma_no_words(s: Seq<char>, dim: int)
    requires
        forall|q: int| 0 <= q < s.len() ==> is_space(#[trigger] s[q]),
    ensures
        word_buckets_from(s, 0, dim) == Seq::<int>::empty(),
{
    lemma_spaces_have_no_words(s, 0, dim);
}

proof fn lemma_spaces_have_no_words(s: Seq<char>, i: int, dim: int)
    requires
        0 <= i,
        forall|q: int| 0 <= q < s.len() ==> is_space(#[trigger] s[q]),
    ensures
        word_buckets_from(s, i, dim) == Seq::<int>::empty(),
    decreases s.len() - i,
{
    if i < s.len() {
        assert(is_space(s[i]));
        lemma_spaces_have_no_words(s, i + 1, dim);
    }
}

/// Whitespace before the first word is skipped.
pub proof fn lemma_leading_space_skipped(c: char, t: Seq<char>, dim: int)
    requires
        is_space(c),
    ensures
        word_buckets_from(seq![c] + t, 0, dim) == word_buckets_from(t, 0, dim),
{
    let s = seq![c] + t;
    assert(s[0] == c);
    lemma_word_buckets_shift(s, 1, 1, dim);
    assert(s.skip(1) =~= t);
}

/// A text that is one word (non-empty, without whitespace) has exactly
/// one word position: the hash of the whole word modulo the dimension.
pub proof fn lemma_single_word(w: Seq<char>, dim: int)
    requires
        w.len() > 0,
        forall|q: int| 0 <= q < w.len() ==> !is_space(#[trigger] w[q]),
    ensures
        word_buckets_from(w, 0, dim) == seq![bucket(default_str_hash(w), dim)],
{
    lemma_word_end_run(w, 0, w.len() as int);
    assert(w.subrange(0, w.len() as int) =~= w);
    assert(word_buckets_from(w, w.len() as int, dim) == Seq::<int>::empty());
    assert(seq![bucket(default_str_hash(w), dim)] + Seq::<int>::empty() =~= seq![
        bucket(default_str_hash(w), dim),
    ]);
}

/// A word followed by whitespace and the rest of the text: the word's
/// position (the hash of the whole word modulo the dimension) comes first,
/// then the positions of the words of the rest.
pub proof fn lemma_word_then_rest(w: Seq<char>, c: char, t: Seq<char>, dim: int)
    requires
        w.len() > 0,
        forall|q: int| 0 <= q < w.len() ==> !is_space(#[trigger] w[q]),
        is_space(c),
    ensures
        word_buckets_from(w + seq![c] + t, 0, dim) == seq![bucket(default_str_hash(w), dim)]
            + word_buckets_from(t, 0, dim),
{
    let s = w + seq![c] + t;
    let n = w.len() as int;
    assert(s[n] == c);
    assert forall|q: int| 0 <= q < n implies !is_space(#[trigger] s[q]) by {
        assert(s[q] == w[q]);
    }
    lemma_word_end_run(s, 0, n);
    assert(s.subrange(0, n) =~= w);
    assert(s[0] == w[0]);
    assert(word_buckets_from(s, 0, dim) == seq![bucket(default_str_hash(w), dim)]
        + word_buckets_from(s, n, dim));
    assert(word_buckets_from(s, n, dim) == word_buckets_from(s, n + 1, dim));
    lemma_word_buckets_shift(s, n + 1, n + 1, dim);
    assert(s.skip(n + 1) =~= t);
}

/// The positions of the runs of `n` adjacent characters of `s`, in order
/// (`slice::windows(n)`).
pub open spec fn gram_buckets(s: Seq<char>, n: int, dim: int) -> Seq<int> {
    Seq::new(
        if s.len() >= n {
            (s.len() - n + 1) as nat
        } else {
            0
        },
        |i: int| bucket(default_str_hash(s.subrange(i, i + n)), dim),
    )
}

/// Whether the text has a word or a run of two characters to count.
pub open spec fn has_pieces(s: Seq<char>) -> bool {
    s.len() >= 2 || exists|i: int| 0 <= i < s.len() && !is_space(s[i])
}

/// How many of `items` equal `k`.
pub open spec fn count_eq(items: Seq<int>, k: int) -> nat
    decreases items.len(),
{
    if items.len() == 0 {
        0
    } else {
        count_eq(items.drop_last(), k) + if items.last() == k {
            1nat
        } else {
            0nat
        }
    }
}

/// `counts` holds, for each of `dim` positions, how many of `items` are it.
pub open spec fn counts_match(counts: Seq<u64>, items: Seq<int>, dim: int) -> bool {
    &&& counts.len() == dim
    &&& forall|k: int| 0 <= k < dim ==> counts[k] == count_eq(items, k)
}

/// The counts of the first `n` positions, added up.
pub open spec fn sum_counts(items: Seq<int>, n: int) -> int
    decreases n,
{
    if n <= 0 {
        0
    } else {
        sum_counts(items, n - 1) + count_eq(items, n - 1)
    }
}

proof fn lemma_sum_counts_empty(n: int)
    ensures
        sum_counts(Seq::<int>::empty(), n) == 0,
    decreases n,
{
    if n > 0 {
        lemma_sum_counts_empty(n - 1);
    }
}

proof fn lemma_sum_counts_push(items: Seq<int>, x: int, n: int)
    ensures
        sum_counts(items.push(x), n) == sum_counts(items, n) + if 0 <= x < n {
            1int
        } else {
            0int
        },
    decreases n,
{
    assert(items.push(x).drop_last() =~= items);
    if n > 0 {
        lemma_sum_counts_push(items, x, n - 1);
    }
}

/// Every piece falls into exactly one of the `dim` positions: the counts
/// of all positions add up to the number of pieces.
pub proof fn lemma_counts_cover_pieces(items: Seq<int>, dim: int)
    requires
        forall|i: int| 0 <= i < items.len() ==> 0 <= #[trigger] items[i] < dim,
    ensures
        sum_counts(items, dim) == items.len(),
    decreases items.len(),
{
    if items.len() == 0 {
        lemma_sum_counts_empty(dim);
        assert(items =~= Seq::<int>::empty());
    } else {
        let rest = items.drop_last();
        assert(0 <= items[items.len() - 1] < dim);
        lemma_counts_cover_pieces(rest, dim);
        lemma_sum_counts_push(rest, items.last(), dim);
        assert(rest.push(items.last()) =~= items);
    }
}

/// The positions as integers.
pub open spec fn ints(v: Seq<usize>) -> Seq<int> {
    v.map_values(|b: usize| b as int)
}

/// The number of pieces of a text that fall into each output position.
pub struct NgramCounts {
    /// Words.
    pub words: Vec<u64>,
    /// Pairs of adjacent characters.
    pub bigrams: Vec<u64>,
    /// Runs of three adjacent characters.
    pub trigrams: Vec<u64>,
}

fn bucket_of(h: u64, dim: usize) -> (r: usize)
    requires
        dim > 0,
    ensures
        r as int == bucket(h, dim as int),
        r < dim,
{
    (h % (dim as u64)) as usize
}

/// `word_end`, computed.
fn word_end_exec(cs: &Vec<char>, i: usize) -> (r: usize)
    requires
        i <= cs.len(),
    ensures
        r == word_end(cs@, i as int),
        i <= r <= cs.len(),
{
    let mut k = i;
    while k < cs.len() && !is_space_char(cs[k])
        invariant
            i <= k <= cs.len(),
            word_end(cs@, k as int) == word_end(cs@, i as int),
        decreases cs.len() - k,
    {
        k = k + 1;
    }
    k
}

/// The positions of the words of `cs`.
fn word_bucket_list(text: &str, cs: &Vec<char>, dim: usize) -> (r: Vec<usize>)
    requires
        cs@ == text@,
        dim > 0,
    ensures
        ints(r@) == word_buckets_from(cs@, 0, dim as int),
        forall|j: int| 0 <= j < r.len() ==> r@[j] < dim,
{
    let mut out: Vec<usize> = Vec::new();
    let mut i: usize = 0;
    assert(ints(out@) + word_buckets_from(cs@, 0, dim as int) =~= word_buckets_from(
        cs@,
        0,
        dim as int,
    ));
    while i < cs.len()
        invariant
            i <= cs.len(),
            cs@ == text@,
            dim > 0,
            ints(out@) + word_buckets_from(cs@, i as int, dim as int) == word_buckets_from(
                cs@,
                0,
                dim as int,
            ),
            forall|j: int| 0 <= j < out.len() ==> out@[j] < dim,
        decreases cs.len() - i,
    {
        if is_space_char(cs[i]) {
            i = i + 1;
        } else {
            let ghost before = out@;
            let e = word_end_exec(cs, i);
            let h = hash_str(text.substring_char(i, e));
            let b = bucket_of(h, dim);
            out.push(b);
            assert(word_buckets_from(cs@, i as int, dim as int) == seq![b as int]
                + word_buckets_from(cs@, e as int, dim as int));
            assert(ints(out@) =~= ints(before).push(b as int));
            assert(ints(out@) + word_buckets_from(cs@, e as int, dim as int) =~= ints(before)
                + word_buckets_from(cs@, i as int, dim as int));
            i = e;
        }
    }
    out
}

/// The positions of the runs of `n` adjacent characters of `cs`.
fn gram_bucket_list(text: &str, cs: &Vec<char>, n: usize, dim: usize) -> (r: Vec<usize>)
    requires
        cs@ == text@,
        n >= 1,
        dim > 0,
    ensures
        ints(r@) == gram_buckets(cs@, n as int, dim as int),
        forall|j: int| 0 <= j < r.len() ==> r@[j] < dim,
{
    let mut out: Vec<usize> = Vec::new();
    if cs.len() < n {
        assert(ints(out@) =~= gram_buckets(cs@, n as int, dim as int));
        return out;
    }
    let count = cs.len() - n + 1;
    let mut i: usize = 0;
    while i < count
        invariant
            cs@ == text@,
            n >= 1,
            dim > 0,
            count == cs.len() - n + 1,
            i <= count,
            ints(out@) =~= gram_buckets(cs@, n as int, dim as int).take(i as int),
            forall|j: int| 0 <= j < out.len() ==> out@[j] < dim,
        decreases count - i,
    {
        let ghost before = out@;
        let h = hash_str(text.substring_char(i, i + n));
        let b = bucket_of(h, dim);
        out.push(b);
        assert(gram_buckets(cs@, n as int, dim as int)[i as int] == b as int);
        assert(ints(out@) =~= ints(before).push(b as int));
        assert(gram_buckets(cs@, n as int, dim as int).take(i + 1) =~= gram_buckets(
            cs@,
            n as int,
            dim as int,
        ).take(i as int).push(b as int));
        i = i + 1;
    }
    assert(gram_buckets(cs@, n as int, dim as int).take(count as int) =~= gram_buckets(
        cs@,
        n as int,
        dim as int,
    ));
    out
}

proof fn lemma_count_eq_bound(items: Seq<int>, k: int)
    ensures
        count_eq(items, k) <= items.len(),
    decreases items.len(),
{
    if items.len() > 0 {
        lemma_count_eq_bound(items.drop_last(), k);
    }
}

/// For each of `dim` positions, how many of `items` are it.
fn count_buckets(items: &Vec<usize>, dim: usize) -> (r: Vec<u64>)
    requires
        forall|j: int| 0 <= j < items.len() ==> items@[j] < dim,
    ensures
        counts_match(r@, ints(items@), dim as int),
{
    let mut counts: Vec<u64> = Vec::new();
    let mut k: usize = 0;
    while k < dim
        invariant
            k <= dim,
            counts.len() == k,
            forall|j: int| 0 <= j < k ==> counts@[j] == 0,
        decreases dim - k,
    {
        counts.push(0);
        k = k + 1;
    }
    let mut i: usize = 0;
    while i < items.len()
        invariant
            i <= items.len(),
            counts.len() == dim,
            forall|j: int| 0 <= j < items.len() ==> items@[j] < dim,
            forall|j: int|
                0 <= j < dim ==> counts@[j] == count_eq(ints(items@).take(i as int), j),
        decreases items.len() - i,
    {
        let b = items[i];
        proof {
            lemma_count_eq_bound(ints(items@).take(i as int), b as int);
            assert(ints(items@).take(i as int + 1).drop_last() =~= ints(items@).take(i as int));
        }
        let c = counts[b];
        counts.set(b, c + 1);
        i = i + 1;
    }
    assert(ints(items@).take(items.len() as int) =~= ints(items@));
    counts
}

impl SimpleEmbedder {
    /// Counts, for each output position, the words, the pairs and the runs
    /// of three adjacent characters of the lowercased text whose hash falls
    /// into it. With no positions (dimension 0) the text must have nothing
    /// to count, and the counts are empty.
    pub fn ngram_counts(&self, text: &str) -> (r: NgramCounts)
        requires
            self.spec_dimension() > 0 || !has_pieces(lowercase(text@)),
        ensures
            counts_match(
                r.words@,
                word_buckets_from(lowercase(text@), 0, self.spec_dimension() as int),
                self.spec_dimension() as int,
            ),
            counts_match(
                r.bigrams@,
                gram_buckets(lowercase(text@), 2, self.spec_dimension() as int),
                self.spec_dimension() as int,
            ),
            counts_match(
                r.trigrams@,
                gram_buckets(lowercase(text@), 3, self.spec_dimension() as int),
                self.spec_dimension() as int,
            ),
    {
        let dim = self.dimension();
        if dim == 0 {
            return NgramCounts { words: Vec::new(), bigrams: Vec::new(), trigrams: Vec::new() };
        }
        let lower = to_lowercase(text);
        let lowered = lower.as_str();
        let cs = chars_of(lowered);
        let words = word_bucket_list(lowered, &cs, dim);
        let bigrams = gram_bucket_list(lowered, &cs, 2, dim);
        let trigrams = gram_bucket_list(lowered, &cs, 3, dim);
        NgramCounts {
            words: count_buckets(&words, dim),
            bigrams: count_buckets(&bigrams, dim),
            trigrams: count_buckets(&trigrams, dim),
        }
    }

    /// `ngram_counts` where it is defined: `None` when the dimension is 0
    /// and the lowercased text still has a word or a run of two characters
    /// to count.
    pub fn try_ngram_counts(&self, text: &str) -> (r: Option<NgramCounts>)
        ensures
            r is None <==> self.spec_dimension() == 0 && has_pieces(lowercase(text@)),
            r matches Some(c) ==> {
                &&& counts_match(
                    c.words@,
                    word_buckets_from(lowercase(text@), 0, self.spec_dimension() as int),
                    self.spec_dimension() as int,
                )
                &&& counts_match(
                    c.bigrams@,
                    gram_buckets(lowercase(text@), 2, self.spec_dimension() as int),
                    self.spec_dimension() as int,
                )
                &&& counts_match(
                    c.trigrams@,
                    gram_buckets(lowercase(text@), 3, self.spec_dimension() as int),
                    self.spec_dimension() as int,
                )
            },
    {
        if self.dimension() == 0 {
            let lower = to_lowercase(text);
            let cs = chars_of(lower.as_str());
            if cs.len() >= 2 {
                return None;
            }
            let mut i: usize = 0;
            while i < cs.len()
                invariant
                    cs@ == lowercase(text@),
                    self.spec_dimension() == 0,
                    i <= cs@.len(),
                    forall|k: int| 0 <= k < i ==> is_space(cs@[k]),
                decreases cs@.len() - i,
            {
                if !is_space_char(cs[i]) {
                    assert(!is_space(lowercase(text@)[i as int]));
                    return None;
                }
                i += 1;
            }
        }
        Some(self.ngram_counts(text))
    }
}

} // verus!
