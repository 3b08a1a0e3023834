//! Runs of characters of one class, and literal matches, for the line
//! grammars of the parsers.

use vstd::prelude::*;

use crate::text::{is_decimal, is_whitespace, is_word_char, is_ws, occurs_at, word_char};

verus! {

/// First index `>= i` whose character is not in the class `p`, or `s.len()`.
pub open spec fn run_end(s: Seq<char>, i: int, p: spec_fn(char) -> bool) -> int
    decreases s.len() - i,
{
    if i >= s.len() || i < 0 {
        s.len() as int
    } else if p(s[i]) {
        run_end(s, i + 1, p)
    } else {
        i
    }
}

/// `k` is where the run of `p` that starts at `i` ends.
pub proof fn lemma_run_end(s: Seq<char>, i: int, k: int, p: spec_fn(char) -> bool)
    requires
        0 <= i <= k <= s.len(),
        k < s.len() ==> !p(s[k]),
        forall|j: int| i <= j < k ==> p(#[trigger] s[j]),
    ensures
        run_end(s, i, p) == k,
    decreases k - i,
{
    if i < k {
        lemma_run_end(s, i + 1, k, p);
    }
}

/// The run of `p` from `i` lies within `s`, holds only `p`, and is followed
/// by a character not in `p` (or the end).
pub proof fn lemma_run_end_bounds(s: Seq<char>, i: int, p: spec_fn(char) -> bool)
    requires
        0 <= i <= s.len(),
    ensures
        i <= run_end(s, i, p) <= s.len(),
        forall|j: int| i <= j < run_end(s, i, p) ==> p(#[trigger] s[j]),
        run_end(s, i, p) < s.len() ==> !p(s[run_end(s, i, p)]),
    decreases s.len() - i,
{
    if i < s.len() && p(s[i]) {
        lemma_run_end_bounds(s, i + 1, p);
    }
}

/// The class `\S`.
pub open spec fn non_ws() -> spec_fn(char) -> bool {
    |c: char| !is_ws(c)
}

/// The class `\s`.
pub open spec fn ws() -> spec_fn(char) -> bool {
    |c: char| is_ws(c)
}

/// The class `\d`.
pub open spec fn digit() -> spec_fn(char) -> bool {
    |c: char| is_decimal(c)
}

/// The class `\w`.
pub open spec fn word() -> spec_fn(char) -> bool {
    |c: char| word_char(c)
}

/// ASCII hexadecimal digits, `[0-9a-fA-F]`.
pub open spec fn is_hex(c: char) -> bool {
    ('0' <= c && c <= '9') || ('a' <= c && c <= 'f') || ('A' <= c && c <= 'F')
}

/// The class `[0-9a-fA-F]`.
pub open spec fn hex() -> spec_fn(char) -> bool {
    |c: char| is_hex(c)
}

/// Index just past the run of non-whitespace that starts at `i`.
pub fn skip_non_ws(s: &[char], i: usize) -> (r: usize)
    requires
        i <= s@.len(),
    ensures
        r as int == run_end(s@, i as int, non_ws()),
{
    let mut k = i;
    while k < s.len() && !is_whitespace(s[k])
        invariant
            i <= k <= s@.len(),
            forall|j: int| i <= j < k ==> (non_ws())(#[trigger] s@[j]),
        decreases s@.len() - k,
    {
        k = k + 1;
    }
    proof {
        lemma_run_end(s@, i as int, k as int, non_ws());
    }
    k
}

/// Index just past the run of whitespace that starts at `i`.
pub fn skip_ws_run(s: &[char], i: usize) -> (r: usize)
    requires
        i <= s@.len(),
    ensures
        r as int == run_end(s@, i as int, ws()),
{
    let mut k = i;
    while k < s.len() && is_whitespace(s[k])
        invariant
            i <= k <= s@.len(),
            forall|j: int| i <= j < k ==> (ws())(#[trigger] s@[j]),
        decreases s@.len() - k,
    {
        k = k + 1;
    }
    proof {
        lemma_run_end(s@, i as int, k as int, ws());
    }
    k
}

/// Index just past the run of word characters that starts at `i`.
pub fn skip_word(s: &[char], i: usize) -> (r: usize)
    requires
        i <= s@.len(),
    ensures
        r as int == run_end(s@, i as int, word()),
{
    let mut k = i;
    while k < s.len() && is_word_char(s[k])
        invariant
            i <= k <= s@.len(),
            forall|j: int| i <= j < k ==> (word())(#[trigger] s@[j]),
        decreases s@.len() - k,
    {
        k = k + 1;
    }
    proof {
        lemma_run_end(s@, i as int, k as int, word());
    }
    k
}

/// Index just past the run of decimal digits that starts at `i`.
pub fn skip_digits(s: &[char], i: usize) -> (r: usize)
    requires
        i <= s@.len(),
    ensures
        r as int == run_end(s@, i as int, digit()),
{
    let mut k = i;
    while k < s.len() && crate::text::is_decimal_char(s[k])
        invariant
            i <= k <= s@.len(),
            forall|j: int| i <= j < k ==> (digit())(#[trigger] s@[j]),
        decreases s@.len() - k,
    {
        k = k + 1;
    }
    proof {
        lemma_run_end(s@, i as int, k as int, digit());
    }
    k
}

/// Index just past the run of ASCII hexadecimal digits that starts at `i`.
pub fn skip_hex(s: &[char], i: usize) -> (r: usize)
    requires
        i <= s@.len(),
    ensures
        r as int == run_end(s@, i as int, hex()),
{
    let mut k = i;
    while k < s.len() && (('0' <= s[k] && s[k] <= '9') || ('a' <= s[k] && s[k] <= 'f') || ('A'
        <= s[k] && s[k] <= 'F'))
        invariant
            i <= k <= s@.len(),
            forall|j: int| i <= j < k ==> (hex())(#[trigger] s@[j]),
        decreases s@.len() - k,
    {
        k = k + 1;
    }
    proof {
        lemma_run_end(s@, i as int, k as int, hex());
    }
    k
}

/// `\b` at `i`: the characters on either side of `i` differ in being word
/// characters (outside the text counts as not a word character).
pub open spec fn word_boundary(s: Seq<char>, i: int) -> bool {
    let before = 0 < i <= s.len() && word_char(s[i - 1]);
    let after = 0 <= i < s.len() && word_char(s[i]);
    before != after
}

/// Tests `\b` at `i`.
pub fn is_word_boundary(s: &[char], i: usize) -> (r: bool)
    requires
        i <= s@.len(),
    ensures
        r == word_boundary(s@, i as int),
{
    let before = i > 0 && is_word_char(s[i - 1]);
    let after = i < s.len() && is_word_char(s[i]);
    before != after
}

/// Tests whether `lit` occurs in `s` at `i`.
pub fn literal_at(s: &[char], lit: &str, i: usize) -> (r: bool)
    ensures
        r == occurs_at(s@, lit@, i as int),
{
    let l = crate::text::chars_of(lit);
    crate::text::occurs_at_exec(s, l.as_slice(), i)
}

} // verus!
