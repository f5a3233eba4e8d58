//! The metadata filter language: a SQL-WHERE-like expression parsed into
//! a tree of conditions.
//!
//! - Equality: `field = "value"` or `field = 42`
//! - Comparison: `field > 10`, `field < 100` (and `>=`, `<=`)
//! - IN: `field IN ("a", "b", "c")`
//! - CONTAINS: `field CONTAINS "substring"`
//! - AND/OR at the top level (outside quotes and parentheses): `a = 1 AND b > 2`
//!
//! Parsing happens on the text alone: a number is kept as its text, once
//! checked against the grammar of `f64` literals. Evaluating a filter
//! against JSON metadata, and so converting number texts to values, is
//! left to the caller.

use vstd::prelude::*;
use vstd::string::{StrSliceExecFns, StringExecFns};

verus! {

// ---------------------------------------------------------------------
// Characters and spans
// ---------------------------------------------------------------------

/// Whether `c` has the Unicode `White_Space` property (what
/// `char::is_whitespace` tests, and what `str::trim` strips).
pub open spec fn is_space(c: char) -> bool {
    let u = c as u32;
    (9 <= u <= 13) || u == 32 || u == 0x85 || u == 0xa0 || u == 0x1680 || (0x2000 <= u <= 0x200a)
        || u == 0x2028 || u == 0x2029 || u == 0x202f || u == 0x205f || u == 0x3000
}

/// Whether `c` has the Unicode `White_Space` property.
pub fn is_space_char(c: char) -> (r: bool)
    ensures
        r == is_space(c),
{
    let u = c as u32;
    (9 <= u && u <= 13) || u == 32 || u == 0x85 || u == 0xa0 || u == 0x1680 || (0x2000 <= u && u
        <= 0x200a) || u == 0x2028 || u == 0x2029 || u == 0x202f || u == 0x205f || u == 0x3000
}

/// The characters that trimming removes: whitespace, or with `quotes` the
/// double quote.
pub open spec fn strips(c: char, quotes: bool) -> bool {
    if quotes {
        c == '"'
    } else {
        is_space(c)
    }
}

fn strips_char(c: char, quotes: bool) -> (r: bool)
    ensures
        r == strips(c, quotes),
{
    if quotes {
        c == '"'
    } else {
        is_space_char(c)
    }
}

/// Start of `s[lo..hi]` once leading characters that `strips` are removed.
pub open spec fn skip_start(s: Seq<char>, lo: int, hi: int, quotes: bool) -> int
    decreases hi - lo,
{
    if lo < hi && strips(s[lo], quotes) {
        skip_start(s, lo + 1, hi, quotes)
    } else {
        lo
    }
}

/// End of `s[lo..hi]` once trailing characters that `strips` are removed.
pub open spec fn skip_end(s: Seq<char>, lo: int, hi: int, quotes: bool) -> int
    decreases hi - lo,
{
    if lo < hi && strips(s[hi - 1], quotes) {
        skip_end(s, lo, hi - 1, quotes)
    } else {
        hi
    }
}

/// The span of `s[lo..hi]` with leading and trailing whitespace removed
/// (`str::trim`), or with leading and trailing `"` removed
/// (`str::trim_matches('"')`).
pub open spec fn stripped(s: Seq<char>, lo: int, hi: int, quotes: bool) -> (int, int) {
    let a = skip_start(s, lo, hi, quotes);
    (a, skip_end(s, a, hi, quotes))
}

/// Whether `pat` occurs in `s` at `i`, ending by `hi`.
pub open spec fn matches_at(s: Seq<char>, i: int, hi: int, pat: Seq<char>) -> bool {
    0 <= i && i + pat.len() <= hi && hi <= s.len() && s.subrange(i, i + pat.len()) == pat
}

/// The first position from `i` where `pat` occurs in `s[..hi]` (`str::find`).
pub open spec fn find_from(s: Seq<char>, i: int, hi: int, pat: Seq<char>) -> Option<int>
    decreases hi - i,
{
    if pat.len() == 0 || i < 0 || i + pat.len() > hi {
        None
    } else if matches_at(s, i, hi, pat) {
        Some(i)
    } else {
        find_from(s, i + 1, hi, pat)
    }
}

/// The quote state after the character `c`.
pub open spec fn quote_after(c: char, in_quote: bool) -> bool {
    if c == '"' {
        !in_quote
    } else {
        in_quote
    }
}

/// The parenthesis depth after the character `c`.
pub open spec fn depth_after(c: char, depth: int) -> int {
    if c == '(' {
        depth + 1
    } else if c == ')' {
        depth - 1
    } else {
        depth
    }
}

/// The first position from `i` where `pat` occurs in `s[..hi]` outside
/// double quotes and parentheses, given the quote and nesting state before
/// `i`. The state is updated by the character at a position before the
/// match there is tested.
pub open spec fn find_top_from(
    s: Seq<char>,
    i: int,
    hi: int,
    pat: Seq<char>,
    in_quote: bool,
    depth: int,
) -> Option<int>
    decreases hi - i,
{
    if i < 0 || i >= hi {
        None
    } else {
        let q = quote_after(s[i], in_quote);
        let d = depth_after(s[i], depth);
        if !q && d == 0 && matches_at(s, i, hi, pat) {
            Some(i)
        } else {
            find_top_from(s, i + 1, hi, pat, q, d)
        }
    }
}

/// A top-level match lies within the range searched, leaving room for
/// the pattern.
pub proof fn lemma_find_top_bounds(
    s: Seq<char>,
    i: int,
    hi: int,
    pat: Seq<char>,
    in_quote: bool,
    depth: int,
)
    ensures
        find_top_from(s, i, hi, pat, in_quote, depth) matches Some(p) ==> i <= p && p + pat.len()
            <= hi,
    decreases hi - i,
{
    if 0 <= i < hi {
        lemma_find_top_bounds(
            s,
            i + 1,
            hi,
            pat,
            quote_after(s[i], in_quote),
            depth_after(s[i], depth),
        );
    }
}

/// A match lies within the range searched, leaving room for the pattern.
pub proof fn lemma_find_bounds(s: Seq<char>, i: int, hi: int, pat: Seq<char>)
    ensures
        find_from(s, i, hi, pat) matches Some(p) ==> i <= p && p + pat.len() <= hi,
    decreases hi - i,
{
    if !(pat.len() == 0 || i < 0 || i + pat.len() > hi) && !matches_at(s, i, hi, pat) {
        lemma_find_bounds(s, i + 1, hi, pat);
    }
}

/// The text of a span.
pub open spec fn text(s: Seq<char>, span: (int, int)) -> Seq<char> {
    s.subrange(span.0, span.1)
}

/// The whitespace-trimmed text of `s[lo..hi]`.
pub open spec fn trimmed_text(s: Seq<char>, lo: int, hi: int) -> Seq<char> {
    text(s, stripped(s, lo, hi, false))
}

/// The text of an IN list item: trimmed, then stripped of quotes.
pub open spec fn item_text(s: Seq<char>, lo: int, hi: int) -> Seq<char> {
    let t = stripped(s, lo, hi, false);
    text(s, stripped(s, t.0, t.1, true))
}

/// The items of `s[lo..hi]` between commas (`str::split(',')`), each as
/// `item_text` gives it.
pub open spec fn comma_items(s: Seq<char>, lo: int, hi: int) -> Seq<Seq<char>>
    decreases hi - lo,
{
    match find_from(s, lo, hi, seq![',']) {
        Some(p) => if lo <= p < hi {
            seq![item_text(s, lo, p)] + comma_items(s, p + 1, hi)
        } else {
            seq![item_text(s, lo, hi)]
        },
        None => seq![item_text(s, lo, hi)],
    }
}

/// `s[j..k]` is one of the comma-separated items of `s[lo..hi]`: it starts
/// at `lo` or just after a comma, ends at `hi` or at a comma, and holds no
/// comma.
pub open spec fn comma_segment(s: Seq<char>, lo: int, hi: int, j: int, k: int) -> bool {
    &&& lo <= j <= k <= hi
    &&& (j == lo || s[j - 1] == ',')
    &&& (k == hi || s[k] == ',')
    &&& forall|q: int| j <= q < k ==> s[q] != ','
}

/// Searching for a single character finds its first occurrence, or
/// reports that there is none.
pub proof fn lemma_find_char(s: Seq<char>, i: int, hi: int, c: char)
    requires
        0 <= i,
        hi <= s.len(),
    ensures
        find_from(s, i, hi, seq![c]) matches Some(p) ==> {
            &&& i <= p < hi
            &&& s[p] == c
            &&& forall|q: int| i <= q < p ==> s[q] != c
        },
        find_from(s, i, hi, seq![c]) is None ==> forall|q: int| i <= q < hi ==> s[q] != c,
    decreases hi - i,
{
    if i + 1 <= hi {
        if s[i] == c {
            assert(s.subrange(i, i + 1) =~= seq![c]);
        } else {
            assert(s.subrange(i, i + 1)[0] == s[i]);
            assert(!matches_at(s, i, hi, seq![c]));
            lemma_find_char(s, i + 1, hi, c);
        }
    }
}

/// Every comma-separated item of `s[lo..hi]` is among `comma_items`.
pub proof fn lemma_comma_items_complete(s: Seq<char>, lo: int, hi: int, j: int, k: int)
    requires
        0 <= lo,
        hi <= s.len(),
        comma_segment(s, lo, hi, j, k),
    ensures
        comma_items(s, lo, hi).contains(item_text(s, j, k)),
    decreases hi - lo,
{
    lemma_find_char(s, lo, hi, ',');
    let items = comma_items(s, lo, hi);
    match find_from(s, lo, hi, seq![',']) {
        Some(p) => {
            if j == lo {
                if k == hi {
                    assert(s[p] != ',');
                }
                assert(p == k);
                assert(items[0] == item_text(s, j, k));
            } else {
                assert(s[j - 1] == ',');
                assert(p <= j - 1);
                lemma_comma_items_complete(s, p + 1, hi, j, k);
                let rest = comma_items(s, p + 1, hi);
                let w = choose|w: int| 0 <= w < rest.len() && rest[w] == item_text(s, j, k);
                assert(items[w + 1] == rest[w]);
            }
        },
        None => {
            if j != lo {
                assert(s[j - 1] != ',');
            }
            if k != hi {
                assert(s[k] != ',');
            }
            assert(items[0] == item_text(s, j, k));
        },
    }
}

/// Everything among `comma_items` of `s[lo..hi]` is one of its
/// comma-separated items.
pub proof fn lemma_comma_items_sound(s: Seq<char>, lo: int, hi: int, v: Seq<char>)
    requires
        0 <= lo <= hi,
        hi <= s.len(),
        comma_items(s, lo, hi).contains(v),
    ensures
        exists|j: int, k: int| #[trigger] comma_segment(s, lo, hi, j, k) && v == item_text(s, j, k),
    decreases hi - lo,
{
    lemma_find_char(s, lo, hi, ',');
    let items = comma_items(s, lo, hi);
    let w = choose|w: int| 0 <= w < items.len() && items[w] == v;
    match find_from(s, lo, hi, seq![',']) {
        Some(p) => {
            if w == 0 {
                assert(comma_segment(s, lo, hi, lo, p));
            } else {
                let rest = comma_items(s, p + 1, hi);
                assert(rest[w - 1] == v);
                lemma_comma_items_sound(s, p + 1, hi, v);
                let (j, k) = choose|j: int, k: int|
                    #[trigger] comma_segment(s, p + 1, hi, j, k) && v == item_text(s, j, k);
                assert(comma_segment(s, lo, hi, j, k));
            }
        },
        None => {
            assert(comma_segment(s, lo, hi, lo, hi));
        },
    }
}

// ---------------------------------------------------------------------
// Scanning, executable
// ---------------------------------------------------------------------

/// The characters of `input`, in order.
pub(crate) fn chars_of(input: &str) -> (cs: Vec<char>)
    ensures
        cs@ == input@,
{
    let n = input.unicode_len();
    let mut cs: Vec<char> = Vec::new();
    let mut i: usize = 0;
    while i < n
        invariant
            i <= n,
            n == input@.len(),
            cs@ == input@.subrange(0, i as int),
        decreases n - i,
    {
        cs.push(input.get_char(i));
        i = i + 1;
        assert(cs@ =~= input@.subrange(0, i as int));
    }
    assert(cs@ =~= input@);
    cs
}

/// `skip_start`, computed.
fn skip_start_exec(cs: &Vec<char>, lo: usize, hi: usize, quotes: bool) -> (r: usize)
    requires
        lo <= hi <= cs.len(),
    ensures
        r == skip_start(cs@, lo as int, hi as int, quotes),
        lo <= r <= hi,
{
    let mut i = lo;
    while i < hi && strips_char(cs[i], quotes)
        invariant
            lo <= i <= hi <= cs.len(),
            skip_start(cs@, i as int, hi as int, quotes) == skip_start(
                cs@,
                lo as int,
                hi as int,
                quotes,
            ),
        decreases hi - i,
    {
        i = i + 1;
    }
    i
}

/// `skip_end`, computed.
fn skip_end_exec(cs: &Vec<char>, lo: usize, hi: usize, quotes: bool) -> (r: usize)
    requires
        lo <= hi <= cs.len(),
    ensures
        r == skip_end(cs@, lo as int, hi as int, quotes),
        lo <= r <= hi,
{
    let mut j = hi;
    while lo < j && strips_char(cs[j - 1], quotes)
        invariant
            lo <= j <= hi <= cs.len(),
            skip_end(cs@, lo as int, j as int, quotes) == skip_end(
                cs@,
                lo as int,
                hi as int,
                quotes,
            ),
        decreases j - lo,
    {
        j = j - 1;
    }
    j
}

/// `stripped`, computed.
fn strip(cs: &Vec<char>, lo: usize, hi: usize, quotes: bool) -> (r: (usize, usize))
    requires
        lo <= hi <= cs.len(),
    ensures
        (r.0 as int, r.1 as int) == stripped(cs@, lo as int, hi as int, quotes),
        lo <= r.0 <= r.1 <= hi,
{
    let a = skip_start_exec(cs, lo, hi, quotes);
    let b = skip_end_exec(cs, a, hi, quotes);
    (a, b)
}

/// Whether `pat` occurs in `cs` at `i`, ending by `hi`.
fn matches_exec(cs: &Vec<char>, i: usize, hi: usize, pat: &Vec<char>) -> (r: bool)
    requires
        hi <= cs.len(),
    ensures
        r == matches_at(cs@, i as int, hi as int, pat@),
{
    if i > hi || pat.len() > hi - i {
        return false;
    }
    let mut k: usize = 0;
    while k < pat.len()
        invariant
            i + pat.len() <= hi <= cs.len(),
            k <= pat.len(),
            forall|j: int| 0 <= j < k ==> cs@[i + j] == pat@[j],
        decreases pat.len() - k,
    {
        if cs[i + k] != pat[k] {
            assert(cs@.subrange(i as int, i + pat.len())[k as int] != pat@[k as int]);
            return false;
        }
        k = k + 1;
    }
    assert(cs@.subrange(i as int, i + pat.len()) =~= pat@);
    true
}

/// The optional position as an integer.
pub open spec fn opt_int(o: Option<usize>) -> Option<int> {
    match o {
        Some(p) => Some(p as int),
        None => None,
    }
}

/// `find_from`, computed: the first occurrence of `pat` in `cs[i..hi]`.
fn find_exec(cs: &Vec<char>, lo: usize, hi: usize, pat: &Vec<char>) -> (r: Option<usize>)
    requires
        lo <= hi <= cs.len(),
    ensures
        opt_int(r) == find_from(cs@, lo as int, hi as int, pat@),
        r matches Some(p) ==> lo <= p && p + pat.len() <= hi,
{
    if pat.len() == 0 {
        return None;
    }
    let mut i = lo;
    while i <= hi && pat.len() <= hi - i
        invariant
            lo <= i,
            hi <= cs.len(),
            pat.len() > 0,
            find_from(cs@, i as int, hi as int, pat@) == find_from(
                cs@,
                lo as int,
                hi as int,
                pat@,
            ),
        decreases hi + 1 - i,
    {
        if matches_exec(cs, i, hi, pat) {
            return Some(i);
        }
        i = i + 1;
    }
    None
}

/// The first position in `cs[lo..hi]` where `op` occurs outside double
/// quotes and parentheses: a quote toggles the quote state and a
/// parenthesis changes the depth, each before the position is tested.
fn find_and_or(cs: &Vec<char>, lo: usize, hi: usize, op: &Vec<char>) -> (r: Option<usize>)
    requires
        lo <= hi <= cs.len(),
        cs.len() <= isize::MAX,
    ensures
        opt_int(r) == find_top_from(cs@, lo as int, hi as int, op@, false, 0),
        r matches Some(p) ==> lo <= p && p + op.len() <= hi,
{
    proof {
        lemma_find_top_bounds(cs@, lo as int, hi as int, op@, false, 0);
    }
    let mut in_quote = false;
    let mut depth: isize = 0;
    let mut i = lo;
    while i < hi
        invariant
            lo <= i <= hi <= cs.len() <= isize::MAX,
            -(i - lo) <= depth <= i - lo,
            find_top_from(cs@, i as int, hi as int, op@, in_quote, depth as int) == find_top_from(
                cs@,
                lo as int,
                hi as int,
                op@,
                false,
                0,
            ),
        decreases hi - i,
    {
        let c = cs[i];
        if c == '"' {
            in_quote = !in_quote;
        }
        if c == '(' {
            depth = depth + 1;
        } else if c == ')' {
            depth = depth - 1;
        }
        if !in_quote && depth == 0 && matches_exec(cs, i, hi, op) {
            return Some(i);
        }
        i = i + 1;
    }
    None
}

// ---------------------------------------------------------------------
// Number literals
// ---------------------------------------------------------------------

/// An ASCII digit.
pub open spec fn is_digit(c: char) -> bool {
    48 <= (c as u32) <= 57
}

/// A sign, `+` or `-`.
pub open spec fn is_sign(c: char) -> bool {
    c == '+' || c == '-'
}

/// End of the run of ASCII digits in `s[..hi]` that starts at `i`.
pub open spec fn digit_run(s: Seq<char>, i: int, hi: int) -> int
    decreases hi - i,
{
    if 0 <= i < hi && is_digit(s[i]) {
        digit_run(s, i + 1, hi)
    } else {
        i
    }
}

/// Whether `s[i..hi]` is an exponent after its `e`: `Sign? Digit+`.
pub open spec fn exponent_ok(s: Seq<char>, i: int, hi: int) -> bool {
    let j = if i < hi && is_sign(s[i]) {
        i + 1
    } else {
        i
    };
    let k = digit_run(s, j, hi);
    j < k && k == hi
}

/// Whether `s[i..hi]` is an unsigned decimal number:
/// `(Digit+ | Digit+ '.' Digit* | Digit* '.' Digit+) (('e' | 'E') Sign? Digit+)?`.
pub open spec fn decimal_ok(s: Seq<char>, i: int, hi: int) -> bool {
    let a = digit_run(s, i, hi);
    let dot = a < hi && s[a] == '.';
    let b = if dot {
        digit_run(s, a + 1, hi)
    } else {
        a
    };
    let digits = if dot {
        (a - i) + (b - (a + 1))
    } else {
        a - i
    };
    digits >= 1 && (b == hi || (b < hi && (s[b] == 'e' || s[b] == 'E') && exponent_ok(
        s,
        b + 1,
        hi,
    )))
}

/// Whether `s[lo..hi]` spells `lower` with each letter in either case
/// (`upper` is `lower` in capitals).
pub open spec fn word_ci(s: Seq<char>, lo: int, hi: int, lower: Seq<char>, upper: Seq<char>) -> bool {
    &&& hi - lo == lower.len()
    &&& forall|k: int| 0 <= k < lower.len() ==> (s[lo + k] == lower[k] || s[lo + k] == upper[k])
}

/// Whether `s[lo..hi]` is what `str::parse::<f64>` accepts:
/// `Sign? ('inf' | 'infinity' | 'nan' | Number)`, the words in any case, no
/// surrounding whitespace.
pub open spec fn float_text_ok(s: Seq<char>, lo: int, hi: int) -> bool {
    let i = if lo < hi && is_sign(s[lo]) {
        lo + 1
    } else {
        lo
    };
    ||| word_ci(s, i, hi, seq!['i', 'n', 'f'], seq!['I', 'N', 'F'])
    ||| word_ci(
        s,
        i,
        hi,
        seq!['i', 'n', 'f', 'i', 'n', 'i', 't', 'y'],
        seq!['I', 'N', 'F', 'I', 'N', 'I', 'T', 'Y'],
    )
    ||| word_ci(s, i, hi, seq!['n', 'a', 'n'], seq!['N', 'A', 'N'])
    ||| decimal_ok(s, i, hi)
}

fn is_digit_char(c: char) -> (r: bool)
    ensures
        r == is_digit(c),
{
    let u = c as u32;
    48 <= u && u <= 57
}

/// `digit_run`, computed.
fn digit_run_exec(cs: &Vec<char>, i: usize, hi: usize) -> (r: usize)
    requires
        i <= hi <= cs.len(),
    ensures
        r == digit_run(cs@, i as int, hi as int),
        i <= r <= hi,
{
    let mut k = i;
    while k < hi && is_digit_char(cs[k])
        invariant
            i <= k <= hi <= cs.len(),
            digit_run(cs@, k as int, hi as int) == digit_run(cs@, i as int, hi as int),
        decreases hi - k,
    {
        k = k + 1;
    }
    k
}

/// `exponent_ok`, computed.
fn exponent_ok_exec(cs: &Vec<char>, i: usize, hi: usize) -> (r: bool)
    requires
        i <= hi <= cs.len(),
    ensures
        r == exponent_ok(cs@, i as int, hi as int),
{
    let j = if i < hi && (cs[i] == '+' || cs[i] == '-') {
        i + 1
    } else {
        i
    };
    let k = digit_run_exec(cs, j, hi);
    j < k && k == hi
}

/// `decimal_ok`, computed.
fn decimal_ok_exec(cs: &Vec<char>, i: usize, hi: usize) -> (r: bool)
    requires
        i <= hi <= cs.len(),
    ensures
        r == decimal_ok(cs@, i as int, hi as int),
{
    let a = digit_run_exec(cs, i, hi);
    let dot = a < hi && cs[a] == '.';
    let b = if dot {
        digit_run_exec(cs, a + 1, hi)
    } else {
        a
    };
    let enough = if dot {
        (a - i) + (b - (a + 1)) >= 1
    } else {
        a - i >= 1
    };
    if !enough {
        return false;
    }
    if b == hi {
        return true;
    }
    (cs[b] == 'e' || cs[b] == 'E') && exponent_ok_exec(cs, b + 1, hi)
}

/// `word_ci`, computed.
fn word_ci_exec(cs: &Vec<char>, lo: usize, hi: usize, lower: &Vec<char>, upper: &Vec<char>) -> (r:
    bool)
    requires
        lo <= hi <= cs.len(),
        upper.len() == lower.len(),
    ensures
        r == word_ci(cs@, lo as int, hi as int, lower@, upper@),
{
    if hi - lo != lower.len() {
        return false;
    }
    let mut k: usize = 0;
    while k < lower.len()
        invariant
            lo <= hi <= cs.len(),
            hi - lo == lower.len() == upper.len(),
            k <= lower.len(),
            forall|j: int| 0 <= j < k ==> (cs@[lo + j] == lower@[j] || cs@[lo + j] == upper@[j]),
        decreases lower.len() - k,
    {
        if cs[lo + k] != lower[k] && cs[lo + k] != upper[k] {
            return false;
        }
        k = k + 1;
    }
    true
}

/// Whether `cs[lo..hi]` is a literal that `str::parse::<f64>` accepts.
fn float_text_ok_exec(cs: &Vec<char>, lo: usize, hi: usize) -> (r: bool)
    requires
        lo <= hi <= cs.len(),
    ensures
        r == float_text_ok(cs@, lo as int, hi as int),
{
    let i = if lo < hi && (cs[lo] == '+' || cs[lo] == '-') {
        lo + 1
    } else {
        lo
    };
    let inf_l = vec!['i', 'n', 'f'];
    let inf_u = vec!['I', 'N', 'F'];
    let infinity_l = vec!['i', 'n', 'f', 'i', 'n', 'i', 't', 'y'];
    let infinity_u = vec!['I', 'N', 'F', 'I', 'N', 'I', 'T', 'Y'];
    let nan_l = vec!['n', 'a', 'n'];
    let nan_u = vec!['N', 'A', 'N'];
    assert(inf_l@ =~= seq!['i', 'n', 'f']);
    assert(inf_u@ =~= seq!['I', 'N', 'F']);
    assert(infinity_l@ =~= seq!['i', 'n', 'f', 'i', 'n', 'i', 't', 'y']);
    assert(infinity_u@ =~= seq!['I', 'N', 'F', 'I', 'N', 'I', 'T', 'Y']);
    assert(nan_l@ =~= seq!['n', 'a', 'n']);
    assert(nan_u@ =~= seq!['N', 'A', 'N']);
    word_ci_exec(cs, i, hi, &inf_l, &inf_u) || word_ci_exec(cs, i, hi, &infinity_l, &infinity_u)
        || word_ci_exec(cs, i, hi, &nan_l, &nan_u) || decimal_ok_exec(cs, i, hi)
}

// ---------------------------------------------------------------------
// The parsed filter
// ---------------------------------------------------------------------

/// A parsed filter, over the text of its parts.
pub enum FilterSpec {
    /// `field = value`. `numeric` when the value was written bare and is
    /// an `f64` literal without a `.`: whether it stands for a number is
    /// then decided by its value. Otherwise `value` is a string: written in
    /// quotes (which are not part of it), or bare with any `"` at its ends
    /// removed.
    Equals { field: Seq<char>, value: Seq<char>, numeric: bool },
    /// `field > value` or `field >= value`; `value` is an `f64` literal.
    GreaterThan { field: Seq<char>, value: Seq<char>, or_equal: bool },
    /// `field < value` or `field <= value`; `value` is an `f64` literal.
    LessThan { field: Seq<char>, value: Seq<char>, or_equal: bool },
    /// `field IN (v1, v2, ...)`: the set of the listed values.
    In { field: Seq<char>, values: Set<Seq<char>> },
    /// `field CONTAINS value`.
    Contains { field: Seq<char>, value: Seq<char> },
    /// Both filters.
    And(Box<FilterSpec>, Box<FilterSpec>),
    /// Either filter.
    Or(Box<FilterSpec>, Box<FilterSpec>),
}

/// What parsing a text gives: a filter; a rejection, with the text of the
/// condition at fault; or (for an equality whose value is a lone `"`) a
/// failure to slice the value.
pub enum ParseOutcome {
    Parsed(FilterSpec),
    InvalidNumber(Seq<char>),
    Unparsable(Seq<char>),
    Panics,
}

/// The message for a comparison whose value is not a number.
pub open spec fn invalid_number_message(condition: Seq<char>) -> Seq<char> {
    "Invalid number in filter: "@ + condition
}

/// The message for a condition of no known form.
pub open spec fn unparsable_message(condition: Seq<char>) -> Seq<char> {
    "Unable to parse filter: "@ + condition
}

/// The condition `s[a..b]` (already trimmed) as `field IN (...)`, if it is one.
pub open spec fn in_condition(s: Seq<char>, a: int, b: int) -> Option<FilterSpec> {
    match find_from(s, a, b, seq![' ', 'I', 'N', ' ']) {
        Some(p) => {
            let r = stripped(s, p + 4, b, false);
            if r.1 - r.0 >= 1 && s[r.0] == '(' && s[r.1 - 1] == ')' {
                Some(
                    FilterSpec::In {
                        field: trimmed_text(s, a, p),
                        values: comma_items(s, r.0 + 1, r.1 - 1).to_set(),
                    },
                )
            } else {
                None
            }
        },
        None => None,
    }
}

/// The values of a parsed `field IN (v1, ..., vn)` condition are exactly
/// the items of the parenthesised list: every text between the opening
/// parenthesis or a comma and the next comma or the closing parenthesis,
/// trimmed and stripped of quotes, is a value, and every value is one such
/// item.
pub proof fn lemma_in_values_are_list_items(
    s: Seq<char>,
    a: int,
    b: int,
    p: int,
    field: Seq<char>,
    values: Set<Seq<char>>,
)
    requires
        0 <= a <= b <= s.len(),
        find_from(s, a, b, seq![' ', 'I', 'N', ' ']) == Some(p),
        in_condition(s, a, b) == Some(FilterSpec::In { field, values }),
    ensures
        ({
            let r = stripped(s, p + 4, b, false);
            let lo = r.0 + 1;
            let hi = r.1 - 1;
            &&& p + 4 <= r.0 < lo <= hi < r.1 <= b
            &&& s[r.0] == '(' && s[hi] == ')'
            &&& forall|i: int| p + 4 <= i < r.0 ==> is_space(#[trigger] s[i])
            &&& forall|i: int| r.1 <= i < b ==> is_space(#[trigger] s[i])
            &&& forall|j: int, k: int|
                #[trigger] comma_segment(s, lo, hi, j, k) ==> values.contains(item_text(s, j, k))
            &&& forall|v: Seq<char>|
                #[trigger] values.contains(v) ==> exists|j: int, k: int|
                    #[trigger] comma_segment(s, lo, hi, j, k) && v == item_text(s, j, k)
        }),
{
    lemma_find_bounds(s, a, b, seq![' ', 'I', 'N', ' ']);
    lemma_stripped_bounds(s, p + 4, b, false);
    let r = stripped(s, p + 4, b, false);
    let lo = r.0 + 1;
    let hi = r.1 - 1;
    assert(values == comma_items(s, lo, hi).to_set());
    assert forall|j: int, k: int| #[trigger] comma_segment(s, lo, hi, j, k) implies values.contains(
        item_text(s, j, k),
    ) by {
        lemma_comma_items_complete(s, lo, hi, j, k);
    }
    assert forall|v: Seq<char>| #[trigger] values.contains(v) implies exists|j: int, k: int|
        #[trigger] comma_segment(s, lo, hi, j, k) && v == item_text(s, j, k) by {
        lemma_comma_items_sound(s, lo, hi, v);
    }
}

/// The condition `s[a..b]` as an equality whose `=` is at `p`.
pub open spec fn equality(s: Seq<char>, a: int, b: int, p: int) -> ParseOutcome {
    let field = trimmed_text(s, a, p);
    let v = stripped(s, p + 1, b, false);
    if v.1 - v.0 >= 1 && s[v.0] == '"' && s[v.1 - 1] == '"' {
        if v.1 - v.0 == 1 {
            ParseOutcome::Panics
        } else {
            ParseOutcome::Parsed(
                FilterSpec::Equals { field, value: text(s, (v.0 + 1, v.1 - 1)), numeric: false },
            )
        }
    } else if float_text_ok(s, v.0, v.1) && find_from(s, v.0, v.1, seq!['.']) is None {
        ParseOutcome::Parsed(FilterSpec::Equals { field, value: text(s, v), numeric: true })
    } else {
        ParseOutcome::Parsed(
            FilterSpec::Equals { field, value: text(s, stripped(s, v.0, v.1, true)), numeric: false },
        )
    }
}

/// The condition `s[a..b]` as a comparison whose `>` (`greater`) or `<`
/// is at `p`.
pub open spec fn comparison(s: Seq<char>, a: int, b: int, p: int, greater: bool) -> ParseOutcome {
    let or_equal = p + 1 < b && s[p + 1] == '=';
    let start = if or_equal {
        p + 2
    } else {
        p + 1
    };
    let field = trimmed_text(s, a, p);
    let v = stripped(s, start, b, false);
    if !float_text_ok(s, v.0, v.1) {
        ParseOutcome::InvalidNumber(text(s, (a, b)))
    } else if greater {
        ParseOutcome::Parsed(FilterSpec::GreaterThan { field, value: text(s, v), or_equal })
    } else {
        ParseOutcome::Parsed(FilterSpec::LessThan { field, value: text(s, v), or_equal })
    }
}

/// The condition `s[a..b]` (already trimmed) parsed, after the IN form:
/// CONTAINS, then `=`, then `>`, then `<`, each at its first occurrence;
/// a first `=` right after `>` or `<` makes the condition a `>=` or `<=`
/// comparison.
pub open spec fn other_condition(s: Seq<char>, a: int, b: int) -> ParseOutcome {
    match find_from(s, a, b, seq![' ', 'C', 'O', 'N', 'T', 'A', 'I', 'N', 'S', ' ']) {
        Some(p) => {
            let v = stripped(s, p + 10, b, false);
            ParseOutcome::Parsed(
                FilterSpec::Contains {
                    field: trimmed_text(s, a, p),
                    value: text(s, stripped(s, v.0, v.1, true)),
                },
            )
        },
        None => match find_from(s, a, b, seq!['=']) {
            Some(p) => if p > a && (s[p - 1] == '>' || s[p - 1] == '<') {
                comparison(s, a, b, p - 1, s[p - 1] == '>')
            } else {
                equality(s, a, b, p)
            },
            None => match find_from(s, a, b, seq!['>']) {
                Some(p) => comparison(s, a, b, p, true),
                None => match find_from(s, a, b, seq!['<']) {
                    Some(p) => comparison(s, a, b, p, false),
                    None => ParseOutcome::Unparsable(text(s, (a, b))),
                },
            },
        },
    }
}

/// A single condition (no AND/OR) in `s[lo..hi]`.
pub open spec fn condition_outcome(s: Seq<char>, lo: int, hi: int) -> ParseOutcome {
    let t = stripped(s, lo, hi, false);
    match in_condition(s, t.0, t.1) {
        Some(f) => ParseOutcome::Parsed(f),
        None => other_condition(s, t.0, t.1),
    }
}

/// Combines the outcomes of the two sides of AND/OR: the left side is
/// parsed first, and its failure is the result.
pub open spec fn combine(left: ParseOutcome, right: ParseOutcome, is_and: bool) -> ParseOutcome {
    match left {
        ParseOutcome::Parsed(l) => match right {
            ParseOutcome::Parsed(r) => ParseOutcome::Parsed(
                if is_and {
                    FilterSpec::And(Box::new(l), Box::new(r))
                } else {
                    FilterSpec::Or(Box::new(l), Box::new(r))
                },
            ),
            other => other,
        },
        other => other,
    }
}

proof fn lemma_skip_start_bounds(s: Seq<char>, lo: int, hi: int, quotes: bool)
    ensures
        lo <= hi ==> lo <= skip_start(s, lo, hi, quotes) <= hi,
        lo > hi ==> skip_start(s, lo, hi, quotes) == lo,
        forall|i: int| lo <= i < skip_start(s, lo, hi, quotes) ==> strips(#[trigger] s[i], quotes),
    decreases hi - lo,
{
    if lo < hi && strips(s[lo], quotes) {
        lemma_skip_start_bounds(s, lo + 1, hi, quotes);
    }
}

proof fn lemma_skip_end_bounds(s: Seq<char>, lo: int, hi: int, quotes: bool)
    ensures
        lo <= hi ==> lo <= skip_end(s, lo, hi, quotes) <= hi,
        lo > hi ==> skip_end(s, lo, hi, quotes) == hi,
        forall|i: int| skip_end(s, lo, hi, quotes) <= i < hi ==> strips(#[trigger] s[i], quotes),
    decreases hi - lo,
{
    if lo < hi && strips(s[hi - 1], quotes) {
        lemma_skip_end_bounds(s, lo, hi - 1, quotes);
    }
}

/// Trimming stays within the span trimmed.
pub proof fn lemma_stripped_bounds(s: Seq<char>, lo: int, hi: int, quotes: bool)
    ensures
        lo <= hi ==> lo <= stripped(s, lo, hi, quotes).0 <= stripped(s, lo, hi, quotes).1 <= hi,
        lo > hi ==> stripped(s, lo, hi, quotes) == (lo, hi),
        forall|i: int|
            lo <= i < stripped(s, lo, hi, quotes).0 ==> strips(#[trigger] s[i], quotes),
        forall|i: int|
            stripped(s, lo, hi, quotes).1 <= i < hi ==> strips(#[trigger] s[i], quotes),
{
    lemma_skip_start_bounds(s, lo, hi, quotes);
    let a = skip_start(s, lo, hi, quotes);
    lemma_skip_end_bounds(s, a, hi, quotes);
}

/// The whole filter in `s[lo..hi]`, trimmed: split at the first top-level
/// ` AND `, else at the first top-level ` OR `, else a single condition.
pub open spec fn parse_outcome(s: Seq<char>, lo: int, hi: int) -> ParseOutcome
    decreases hi - lo,
{
    let t = stripped(s, lo, hi, false);
    let and_pat = seq![' ', 'A', 'N', 'D', ' '];
    let or_pat = seq![' ', 'O', 'R', ' '];
    match find_top_from(s, t.0, t.1, and_pat, false, 0) {
        Some(p) => {
            proof {
                lemma_stripped_bounds(s, lo, hi, false);
                lemma_find_top_bounds(s, t.0, t.1, and_pat, false, 0);
            }
            combine(parse_outcome(s, t.0, p), parse_outcome(s, p + 5, t.1), true)
        },
        None => match find_top_from(s, t.0, t.1, or_pat, false, 0) {
            Some(p) => {
                proof {
                    lemma_stripped_bounds(s, lo, hi, false);
                    lemma_find_top_bounds(s, t.0, t.1, or_pat, false, 0);
                }
                combine(parse_outcome(s, t.0, p), parse_outcome(s, p + 4, t.1), false)
            },
            None => condition_outcome(s, t.0, t.1),
        },
    }
}

/// A filter over JSON metadata, as parsed from its text: field names and
/// literal values are kept as text.
#[derive(Debug)]
pub enum Filter {
    /// Field equals a value (see `FilterSpec::Equals`).
    Equals { field: String, value: String, numeric: bool },
    /// Field is greater than (or, with `or_equal`, at least) a number.
    GreaterThan { field: String, value: String, or_equal: bool },
    /// Field is less than (or, with `or_equal`, at most) a number.
    LessThan { field: String, value: String, or_equal: bool },
    /// Field is one of a set of strings.
    In { field: String, values: Vec<String> },
    /// Field contains a substring.
    Contains { field: String, value: String },
    /// Logical AND of two filters.
    And(Box<Filter>, Box<Filter>),
    /// Logical OR of two filters.
    Or(Box<Filter>, Box<Filter>),
}

/// The texts of a sequence of strings.
pub open spec fn strings_view(v: Seq<String>) -> Seq<Seq<char>> {
    v.map_values(|x: String| x@)
}

/// The filter as a `FilterSpec`.
pub open spec fn filter_view(f: Filter) -> FilterSpec
    decreases f,
{
    match f {
        Filter::Equals { field, value, numeric } => FilterSpec::Equals {
            field: field@,
            value: value@,
            numeric,
        },
        Filter::GreaterThan { field, value, or_equal } => FilterSpec::GreaterThan {
            field: field@,
            value: value@,
            or_equal,
        },
        Filter::LessThan { field, value, or_equal } => FilterSpec::LessThan {
            field: field@,
            value: value@,
            or_equal,
        },
        Filter::In { field, values } => FilterSpec::In {
            field: field@,
            values: strings_view(values@).to_set(),
        },
        Filter::Contains { field, value } => FilterSpec::Contains { field: field@, value: value@ },
        Filter::And(l, r) => FilterSpec::And(Box::new(filter_view(*l)), Box::new(filter_view(*r))),
        Filter::Or(l, r) => FilterSpec::Or(Box::new(filter_view(*l)), Box::new(filter_view(*r))),
    }
}

impl View for Filter {
    type V = FilterSpec;

    open spec fn view(&self) -> FilterSpec {
        filter_view(*self)
    }
}

/// Whether `r` is what the outcome `o` says a parse returns.
pub open spec fn outcome_result(o: ParseOutcome, r: Result<Filter, String>) -> bool {
    match o {
        ParseOutcome::Parsed(f) => r matches Ok(g) && g@ == f,
        ParseOutcome::InvalidNumber(t) => r matches Err(e) && e@ == invalid_number_message(t),
        ParseOutcome::Unparsable(t) => r matches Err(e) && e@ == unparsable_message(t),
        ParseOutcome::Panics => false,
    }
}

/// Whether `r` is what the outcome `o` says a parse gives, `None` standing
/// for the failure to slice the value.
pub open spec fn outcome_option(o: ParseOutcome, r: Option<Result<Filter, String>>) -> bool {
    match o {
        ParseOutcome::Panics => r is None,
        _ => r matches Some(x) && outcome_result(o, x),
    }
}

// ---------------------------------------------------------------------
// Parsing, executable
// ---------------------------------------------------------------------

/// The text of `cs[lo..hi]` as a `String`.
fn span_string(input: &str, cs: &Vec<char>, lo: usize, hi: usize) -> (r: String)
    requires
        cs@ == input@,
        lo <= hi <= cs.len(),
    ensures
        r@ == cs@.subrange(lo as int, hi as int),
{
    input.substring_char(lo, hi).to_owned()
}

/// The whitespace-trimmed text of `cs[lo..hi]`.
fn trimmed_string(input: &str, cs: &Vec<char>, lo: usize, hi: usize) -> (r: String)
    requires
        cs@ == input@,
        lo <= hi <= cs.len(),
    ensures
        r@ == trimmed_text(cs@, lo as int, hi as int),
{
    let (a, b) = strip(cs, lo, hi, false);
    span_string(input, cs, a, b)
}

/// An IN list item: trimmed, then stripped of quotes.
fn item_string(input: &str, cs: &Vec<char>, lo: usize, hi: usize) -> (r: String)
    requires
        cs@ == input@,
        lo <= hi <= cs.len(),
    ensures
        r@ == item_text(cs@, lo as int, hi as int),
{
    let (a, b) = strip(cs, lo, hi, false);
    let (c, d) = strip(cs, a, b, true);
    span_string(input, cs, c, d)
}

/// `comma_items`, computed.
fn comma_items_exec(input: &str, cs: &Vec<char>, lo: usize, hi: usize) -> (r: Vec<String>)
    requires
        cs@ == input@,
        lo <= hi <= cs.len(),
    ensures
        strings_view(r@) == comma_items(cs@, lo as int, hi as int),
{
    let comma = vec![','];
    assert(comma@ =~= seq![',']);
    let mut out: Vec<String> = Vec::new();
    let mut start = lo;
    assert(strings_view(out@) + comma_items(cs@, start as int, hi as int) =~= comma_items(
        cs@,
        lo as int,
        hi as int,
    ));
    loop
        invariant
            lo <= start <= hi <= cs.len(),
            cs@ == input@,
            comma@ == seq![','],
            strings_view(out@) + comma_items(cs@, start as int, hi as int) == comma_items(
                cs@,
                lo as int,
                hi as int,
            ),
        decreases hi - start,
    {
        let ghost before = out@;
        match find_exec(cs, start, hi, &comma) {
            Some(p) => {
                let item = item_string(input, cs, start, p);
                out.push(item);
                assert(comma_items(cs@, start as int, hi as int) == seq![
                    item_text(cs@, start as int, p as int),
                ] + comma_items(cs@, p + 1, hi as int));
                assert(strings_view(out@) =~= strings_view(before).push(item@));
                assert(strings_view(out@) + comma_items(cs@, p + 1, hi as int) =~= strings_view(
                    before,
                ) + comma_items(cs@, start as int, hi as int));
                start = p + 1;
            },
            None => {
                let item = item_string(input, cs, start, hi);
                out.push(item);
                assert(comma_items(cs@, start as int, hi as int) == seq![
                    item_text(cs@, start as int, hi as int),
                ]);
                assert(strings_view(out@) =~= strings_view(before).push(item@));
                assert(strings_view(out@) =~= strings_view(before) + comma_items(
                    cs@,
                    start as int,
                    hi as int,
                ));
                return out;
            },
        }
    }
}

/// `in_condition`, computed.
fn in_condition_exec(input: &str, cs: &Vec<char>, a: usize, b: usize) -> (r: Option<Filter>)
    requires
        cs@ == input@,
        a <= b <= cs.len(),
    ensures
        match in_condition(cs@, a as int, b as int) {
            Some(f) => r matches Some(g) && g@ == f,
            None => r is None,
        },
{
    let in_pat = vec![' ', 'I', 'N', ' '];
    assert(in_pat@ =~= seq![' ', 'I', 'N', ' ']);
    match find_exec(cs, a, b, &in_pat) {
        None => None,
        Some(p) => {
            let (r0, r1) = strip(cs, p + 4, b, false);
            if r1 - r0 >= 1 && cs[r0] == '(' && cs[r1 - 1] == ')' {
                let field = trimmed_string(input, cs, a, p);
                let values = comma_items_exec(input, cs, r0 + 1, r1 - 1);
                Some(Filter::In { field, values })
            } else {
                None
            }
        },
    }
}

/// `equality`, computed.
fn equality_exec(input: &str, cs: &Vec<char>, a: usize, b: usize, p: usize) -> (r: Option<
    Result<Filter, String>,
>)
    requires
        cs@ == input@,
        a <= p < b <= cs.len(),
    ensures
        outcome_option(equality(cs@, a as int, b as int, p as int), r),
{
    let field = trimmed_string(input, cs, a, p);
    let (v0, v1) = strip(cs, p + 1, b, false);
    if v1 - v0 >= 1 && cs[v0] == '"' && cs[v1 - 1] == '"' {
        if v1 - v0 == 1 {
            return None;
        }
        let value = span_string(input, cs, v0 + 1, v1 - 1);
        return Some(Ok(Filter::Equals { field, value, numeric: false }));
    }
    let dot = vec!['.'];
    assert(dot@ =~= seq!['.']);
    if float_text_ok_exec(cs, v0, v1) && find_exec(cs, v0, v1, &dot).is_none() {
        let value = span_string(input, cs, v0, v1);
        Some(Ok(Filter::Equals { field, value, numeric: true }))
    } else {
        let (c, d) = strip(cs, v0, v1, true);
        let value = span_string(input, cs, c, d);
        Some(Ok(Filter::Equals { field, value, numeric: false }))
    }
}

/// The error for a condition whose number does not parse.
fn invalid_number_error(input: &str, cs: &Vec<char>, a: usize, b: usize) -> (r: String)
    requires
        cs@ == input@,
        a <= b <= cs.len(),
    ensures
        r@ == invalid_number_message(cs@.subrange(a as int, b as int)),
{
    let mut m = String::from_str("Invalid number in filter: ");
    m.append(input.substring_char(a, b));
    m
}

/// The error for a condition of no known form.
fn unparsable_error(input: &str, cs: &Vec<char>, a: usize, b: usize) -> (r: String)
    requires
        cs@ == input@,
        a <= b <= cs.len(),
    ensures
        r@ == unparsable_message(cs@.subrange(a as int, b as int)),
{
    let mut m = String::from_str("Unable to parse filter: ");
    m.append(input.substring_char(a, b));
    m
}

/// `comparison`, computed.
fn comparison_exec(input: &str, cs: &Vec<char>, a: usize, b: usize, p: usize, greater: bool) -> (r:
    Result<Filter, String>)
    requires
        cs@ == input@,
        a <= p < b <= cs.len(),
    ensures
        outcome_result(comparison(cs@, a as int, b as int, p as int, greater), r),
{
    let or_equal = p + 1 < b && cs[p + 1] == '=';
    let start = if or_equal {
        p + 2
    } else {
        p + 1
    };
    let field = trimmed_string(input, cs, a, p);
    let (v0, v1) = strip(cs, start, b, false);
    if !float_text_ok_exec(cs, v0, v1) {
        return Err(invalid_number_error(input, cs, a, b));
    }
    let value = span_string(input, cs, v0, v1);
    if greater {
        Ok(Filter::GreaterThan { field, value, or_equal })
    } else {
        Ok(Filter::LessThan { field, value, or_equal })
    }
}

/// `other_condition`, computed.
fn other_condition_exec(input: &str, cs: &Vec<char>, a: usize, b: usize) -> (r: Option<
    Result<Filter, String>,
>)
    requires
        cs@ == input@,
        a <= b <= cs.len(),
    ensures
        outcome_option(other_condition(cs@, a as int, b as int), r),
{
    let contains_pat = vec![' ', 'C', 'O', 'N', 'T', 'A', 'I', 'N', 'S', ' '];
    assert(contains_pat@ =~= seq![' ', 'C', 'O', 'N', 'T', 'A', 'I', 'N', 'S', ' ']);
    if let Some(p) = find_exec(cs, a, b, &contains_pat) {
        let field = trimmed_string(input, cs, a, p);
        let (v0, v1) = strip(cs, p + 10, b, false);
        let (c, d) = strip(cs, v0, v1, true);
        let value = span_string(input, cs, c, d);
        return Some(Ok(Filter::Contains { field, value }));
    }
    let eq_pat = vec!['='];
    assert(eq_pat@ =~= seq!['=']);
    if let Some(p) = find_exec(cs, a, b, &eq_pat) {
        if p > a && (cs[p - 1] == '>' || cs[p - 1] == '<') {
            let greater = cs[p - 1] == '>';
            return Some(comparison_exec(input, cs, a, b, p - 1, greater));
        }
        return equality_exec(input, cs, a, b, p);
    }
    let gt_pat = vec!['>'];
    assert(gt_pat@ =~= seq!['>']);
    if let Some(p) = find_exec(cs, a, b, &gt_pat) {
        return Some(comparison_exec(input, cs, a, b, p, true));
    }
    let lt_pat = vec!['<'];
    assert(lt_pat@ =~= seq!['<']);
    if let Some(p) = find_exec(cs, a, b, &lt_pat) {
        return Some(comparison_exec(input, cs, a, b, p, false));
    }
    Some(Err(unparsable_error(input, cs, a, b)))
}

/// Parses a single condition (no AND/OR) in `cs[lo..hi]`.
fn parse_condition(input: &str, cs: &Vec<char>, lo: usize, hi: usize) -> (r: Option<
    Result<Filter, String>,
>)
    requires
        cs@ == input@,
        lo <= hi <= cs.len(),
    ensures
        outcome_option(condition_outcome(cs@, lo as int, hi as int), r),
{
    let (a, b) = strip(cs, lo, hi, false);
    match in_condition_exec(input, cs, a, b) {
        Some(f) => Some(Ok(f)),
        None => other_condition_exec(input, cs, a, b),
    }
}

/// Parses the filter in `cs[lo..hi]`.
fn parse_range(input: &str, cs: &Vec<char>, lo: usize, hi: usize) -> (r: Option<
    Result<Filter, String>,
>)
    requires
        cs@ == input@,
        lo <= hi <= cs.len(),
        cs.len() <= isize::MAX,
    ensures
        outcome_option(parse_outcome(cs@, lo as int, hi as int), r),
    decreases hi - lo,
{
    let (a, b) = strip(cs, lo, hi, false);
    let and_pat = vec![' ', 'A', 'N', 'D', ' '];
    let or_pat = vec![' ', 'O', 'R', ' '];
    assert(and_pat@ =~= seq![' ', 'A', 'N', 'D', ' ']);
    assert(or_pat@ =~= seq![' ', 'O', 'R', ' ']);
    if let Some(p) = find_and_or(cs, a, b, &and_pat) {
        match parse_range(input, cs, a, p) {
            None => None,
            Some(Err(e)) => Some(Err(e)),
            Some(Ok(l)) => match parse_range(input, cs, p + 5, b) {
                None => None,
                Some(Err(e)) => Some(Err(e)),
                Some(Ok(r)) => Some(Ok(l.and(r))),
            },
        }
    } else if let Some(p) = find_and_or(cs, a, b, &or_pat) {
        match parse_range(input, cs, a, p) {
            None => None,
            Some(Err(e)) => Some(Err(e)),
            Some(Ok(l)) => match parse_range(input, cs, p + 4, b) {
                None => None,
                Some(Err(e)) => Some(Err(e)),
                Some(Ok(r)) => Some(Ok(l.or(r))),
            },
        }
    } else {
        parse_condition(input, cs, a, b)
    }
}

impl Filter {
    /// An equality filter on a string value.
    pub fn eq(field: &str, value: &str) -> (r: Filter)
        ensures
            r@ == (FilterSpec::Equals { field: field@, value: value@, numeric: false }),
    {
        Filter::Equals { field: field.to_owned(), value: value.to_owned(), numeric: false }
    }

    /// A filter that the field contains `value`.
    pub fn contains(field: &str, value: &str) -> (r: Filter)
        ensures
            r@ == (FilterSpec::Contains { field: field@, value: value@ }),
    {
        Filter::Contains { field: field.to_owned(), value: value.to_owned() }
    }

    /// Both filters.
    pub fn and(self, other: Filter) -> (r: Filter)
        ensures
            r@ == FilterSpec::And(Box::new(self@), Box::new(other@)),
    {
        Filter::And(Box::new(self), Box::new(other))
    }

    /// Either filter.
    pub fn or(self, other: Filter) -> (r: Filter)
        ensures
            r@ == FilterSpec::Or(Box::new(self@), Box::new(other@)),
    {
        Filter::Or(Box::new(self), Box::new(other))
    }

    /// Parses a filter expression.
    ///
    /// The text is trimmed and split at the first top-level ` AND `, else at
    /// the first top-level ` OR `, both sides parsed the same way; otherwise
    /// it is one condition, tried as `field IN (...)`, then
    /// `field CONTAINS value`, `field >= number`, `field <= number`,
    /// `field = value`, `field > number` and `field < number`. A
    /// comparison whose value is not a number, and a
    /// condition of none of these forms, are rejected with a message that
    /// quotes the condition.
    pub fn parse(input: &str) -> (r: Result<Filter, String>)
        requires
            input@.len() <= isize::MAX,
            !(parse_outcome(input@, 0, input@.len() as int) is Panics),
        ensures
            outcome_result(parse_outcome(input@, 0, input@.len() as int), r),
    {
        let cs = chars_of(input);
        match parse_range(input, &cs, 0, cs.len()) {
            Some(r) => r,
            None => {
                proof {
                    assert(false);
                }
                Err(String::new())
            },
        }
    }

    /// Parses a filter expression as `parse` does, or returns `None` for
    /// the one kind of input that `parse` cannot take: one with an
    /// equality whose value is a lone `"`.
    pub fn try_parse(input: &str) -> (r: Option<Result<Filter, String>>)
        requires
            input@.len() <= isize::MAX,
        ensures
            outcome_option(parse_outcome(input@, 0, input@.len() as int), r),
    {
        let cs = chars_of(input);
        parse_range(input, &cs, 0, cs.len())
    }
}

} // verus!
