//! Character-level helpers shared by the parsers: the whitespace and digit
//! classes, trimming, line and token splitting, and decimal numbers.

use vstd::prelude::*;

verus! {

// ---------------------------------------------------------------------------
// Character classes
// ---------------------------------------------------------------------------

/// Unicode `White_Space`: the class of `char::is_whitespace` and of `\s`.
pub open spec fn is_ws(c: char) -> bool {
    let u = c as u32;
    ||| (0x09 <= u && u <= 0x0D)
    ||| u == 0x20
    ||| u == 0x85
    ||| u == 0xA0
    ||| u == 0x1680
    ||| (0x2000 <= u && u <= 0x200A)
    ||| u == 0x2028
    ||| u == 0x2029
    ||| u == 0x202F
    ||| u == 0x205F
    ||| u == 0x3000
}

/// Tests `c` for Unicode `White_Space`.
pub fn is_whitespace(c: char) -> (r: bool)
    ensures
        r == is_ws(c),
{
    let u = c as u32;
    (0x09 <= u && u <= 0x0D) || u == 0x20 || u == 0x85 || u == 0xA0 || u == 0x1680 || (0x2000
        <= u && u <= 0x200A) || u == 0x2028 || u == 0x2029 || u == 0x202F || u == 0x205F || u
        == 0x3000
}

/// An ASCII digit `0`..=`9`.
pub open spec fn is_ascii_digit(c: char) -> bool {
    '0' <= c && c <= '9'
}

/// The value of an ASCII digit.
pub open spec fn digit_value(c: char) -> nat {
    ((c as u32) - 48) as nat
}

/// Unicode `Decimal_Number` (general category `Nd`): the class `\d`.
pub open spec fn is_decimal(c: char) -> bool {
    let u = c as u32;
        ||| (0x30 <= u && u <= 0x39)
        ||| (0x660 <= u && u <= 0x669)
        ||| (0x6F0 <= u && u <= 0x6F9)
        ||| (0x7C0 <= u && u <= 0x7C9)
        ||| (0x966 <= u && u <= 0x96F)
        ||| (0x9E6 <= u && u <= 0x9EF)
        ||| (0xA66 <= u && u <= 0xA6F)
        ||| (0xAE6 <= u && u <= 0xAEF)
        ||| (0xB66 <= u && u <= 0xB6F)
        ||| (0xBE6 <= u && u <= 0xBEF)
        ||| (0xC66 <= u && u <= 0xC6F)
        ||| (0xCE6 <= u && u <= 0xCEF)
        ||| (0xD66 <= u && u <= 0xD6F)
        ||| (0xDE6 <= u && u <= 0xDEF)
        ||| (0xE50 <= u && u <= 0xE59)
        ||| (0xED0 <= u && u <= 0xED9)
        ||| (0xF20 <= u && u <= 0xF29)
        ||| (0x1040 <= u && u <= 0x1049)
        ||| (0x1090 <= u && u <= 0x1099)
        ||| (0x17E0 <= u && u <= 0x17E9)
        ||| (0x1810 <= u && u <= 0x1819)
        ||| (0x1946 <= u && u <= 0x194F)
        ||| (0x19D0 <= u && u <= 0x19D9)
        ||| (0x1A80 <= u && u <= 0x1A89)
        ||| (0x1A90 <= u && u <= 0x1A99)
        ||| (0x1B50 <= u && u <= 0x1B59)
        ||| (0x1BB0 <= u && u <= 0x1BB9)
        ||| (0x1C40 <= u && u <= 0x1C49)
        ||| (0x1C50 <= u && u <= 0x1C59)
        ||| (0xA620 <= u && u <= 0xA629)
        ||| (0xA8D0 <= u && u <= 0xA8D9)
        ||| (0xA900 <= u && u <= 0xA909)
        ||| (0xA9D0 <= u && u <= 0xA9D9)
        ||| (0xA9F0 <= u && u <= 0xA9F9)
        ||| (0xAA50 <= u && u <= 0xAA59)
        ||| (0xABF0 <= u && u <= 0xABF9)
        ||| (0xFF10 <= u && u <= 0xFF19)
        ||| (0x104A0 <= u && u <= 0x104A9)
        ||| (0x10D30 <= u && u <= 0x10D39)
        ||| (0x10D40 <= u && u <= 0x10D49)
        ||| (0x11066 <= u && u <= 0x1106F)
        ||| (0x110F0 <= u && u <= 0x110F9)
        ||| (0x11136 <= u && u <= 0x1113F)
        ||| (0x111D0 <= u && u <= 0x111D9)
        ||| (0x112F0 <= u && u <= 0x112F9)
        ||| (0x11450 <= u && u <= 0x11459)
        ||| (0x114D0 <= u && u <= 0x114D9)
        ||| (0x11650 <= u && u <= 0x11659)
        ||| (0x116C0 <= u && u <= 0x116C9)
        ||| (0x116D0 <= u && u <= 0x116E3)
        ||| (0x11730 <= u && u <= 0x11739)
        ||| (0x118E0 <= u && u <= 0x118E9)
        ||| (0x11950 <= u && u <= 0x11959)
        ||| (0x11BF0 <= u && u <= 0x11BF9)
        ||| (0x11C50 <= u && u <= 0x11C59)
        ||| (0x11D50 <= u && u <= 0x11D59)
        ||| (0x11DA0 <= u && u <= 0x11DA9)
        ||| (0x11F50 <= u && u <= 0x11F59)
        ||| (0x16130 <= u && u <= 0x16139)
        ||| (0x16A60 <= u && u <= 0x16A69)
        ||| (0x16AC0 <= u && u <= 0x16AC9)
        ||| (0x16B50 <= u && u <= 0x16B59)
        ||| (0x16D70 <= u && u <= 0x16D79)
        ||| (0x1CCF0 <= u && u <= 0x1CCF9)
        ||| (0x1D7CE <= u && u <= 0x1D7FF)
        ||| (0x1E140 <= u && u <= 0x1E149)
        ||| (0x1E2F0 <= u && u <= 0x1E2F9)
        ||| (0x1E4F0 <= u && u <= 0x1E4F9)
        ||| (0x1E5F1 <= u && u <= 0x1E5FA)
        ||| (0x1E950 <= u && u <= 0x1E959)
        ||| (0x1FBF0 <= u && u <= 0x1FBF9)}

/// Tests `c` for Unicode `Decimal_Number`.
pub fn is_decimal_char(c: char) -> (r: bool)
    ensures
        r == is_decimal(c),
{
    let u = c as u32;
        (0x30 <= u && u <= 0x39)
        || (0x660 <= u && u <= 0x669)
        || (0x6F0 <= u && u <= 0x6F9)
        || (0x7C0 <= u && u <= 0x7C9)
        || (0x966 <= u && u <= 0x96F)
        || (0x9E6 <= u && u <= 0x9EF)
        || (0xA66 <= u && u <= 0xA6F)
        || (0xAE6 <= u && u <= 0xAEF)
        || (0xB66 <= u && u <= 0xB6F)
        || (0xBE6 <= u && u <= 0xBEF)
        || (0xC66 <= u && u <= 0xC6F)
        || (0xCE6 <= u && u <= 0xCEF)
        || (0xD66 <= u && u <= 0xD6F)
        || (0xDE6 <= u && u <= 0xDEF)
        || (0xE50 <= u && u <= 0xE59)
        || (0xED0 <= u && u <= 0xED9)
        || (0xF20 <= u && u <= 0xF29)
        || (0x1040 <= u && u <= 0x1049)
        || (0x1090 <= u && u <= 0x1099)
        || (0x17E0 <= u && u <= 0x17E9)
        || (0x1810 <= u && u <= 0x1819)
        || (0x1946 <= u && u <= 0x194F)
        || (0x19D0 <= u && u <= 0x19D9)
        || (0x1A80 <= u && u <= 0x1A89)
        || (0x1A90 <= u && u <= 0x1A99)
        || (0x1B50 <= u && u <= 0x1B59)
        || (0x1BB0 <= u && u <= 0x1BB9)
        || (0x1C40 <= u && u <= 0x1C49)
        || (0x1C50 <= u && u <= 0x1C59)
        || (0xA620 <= u && u <= 0xA629)
        || (0xA8D0 <= u && u <= 0xA8D9)
        || (0xA900 <= u && u <= 0xA909)
        || (0xA9D0 <= u && u <= 0xA9D9)
        || (0xA9F0 <= u && u <= 0xA9F9)
        || (0xAA50 <= u && u <= 0xAA59)
        || (0xABF0 <= u && u <= 0xABF9)
        || (0xFF10 <= u && u <= 0xFF19)
        || (0x104A0 <= u && u <= 0x104A9)
        || (0x10D30 <= u && u <= 0x10D39)
        || (0x10D40 <= u && u <= 0x10D49)
        || (0x11066 <= u && u <= 0x1106F)
        || (0x110F0 <= u && u <= 0x110F9)
        || (0x11136 <= u && u <= 0x1113F)
        || (0x111D0 <= u && u <= 0x111D9)
        || (0x112F0 <= u && u <= 0x112F9)
        || (0x11450 <= u && u <= 0x11459)
        || (0x114D0 <= u && u <= 0x114D9)
        || (0x11650 <= u && u <= 0x11659)
        || (0x116C0 <= u && u <= 0x116C9)
        || (0x116D0 <= u && u <= 0x116E3)
        || (0x11730 <= u && u <= 0x11739)
        || (0x118E0 <= u && u <= 0x118E9)
        || (0x11950 <= u && u <= 0x11959)
        || (0x11BF0 <= u && u <= 0x11BF9)
        || (0x11C50 <= u && u <= 0x11C59)
        || (0x11D50 <= u && u <= 0x11D59)
        || (0x11DA0 <= u && u <= 0x11DA9)
        || (0x11F50 <= u && u <= 0x11F59)
        || (0x16130 <= u && u <= 0x16139)
        || (0x16A60 <= u && u <= 0x16A69)
        || (0x16AC0 <= u && u <= 0x16AC9)
        || (0x16B50 <= u && u <= 0x16B59)
        || (0x16D70 <= u && u <= 0x16D79)
        || (0x1CCF0 <= u && u <= 0x1CCF9)
        || (0x1D7CE <= u && u <= 0x1D7FF)
        || (0x1E140 <= u && u <= 0x1E149)
        || (0x1E2F0 <= u && u <= 0x1E2F9)
        || (0x1E4F0 <= u && u <= 0x1E4F9)
        || (0x1E5F1 <= u && u <= 0x1E5FA)
        || (0x1E950 <= u && u <= 0x1E959)
        || (0x1FBF0 <= u && u <= 0x1FBF9)}

/// The ASCII digit character for `d < 10`.
pub open spec fn digit_char(d: nat) -> char {
    (d + 48) as char
}

// ---------------------------------------------------------------------------
// Trimming
// ---------------------------------------------------------------------------

/// `s` without its leading whitespace.
pub open spec fn trim_start(s: Seq<char>) -> Seq<char>
    decreases s.len(),
{
    if s.len() > 0 && is_ws(s[0]) {
        trim_start(s.drop_first())
    } else {
        s
    }
}

/// `s` without its trailing whitespace.
pub open spec fn trim_end(s: Seq<char>) -> Seq<char>
    decreases s.len(),
{
    if s.len() > 0 && is_ws(s.last()) {
        trim_end(s.drop_last())
    } else {
        s
    }
}

/// `s` without leading and trailing whitespace, as `str::trim` gives it.
pub open spec fn trim(s: Seq<char>) -> Seq<char> {
    trim_end(trim_start(s))
}

/// Number of leading whitespace characters of `s`.
pub open spec fn leading_ws(s: Seq<char>) -> nat
    decreases s.len(),
{
    if s.len() > 0 && is_ws(s[0]) {
        1 + leading_ws(s.drop_first())
    } else {
        0
    }
}

pub proof fn lemma_trim_start_skip(s: Seq<char>)
    ensures
        leading_ws(s) <= s.len(),
        trim_start(s) == s.skip(leading_ws(s) as int),
        trim_start(s).len() > 0 ==> !is_ws(trim_start(s)[0]),
    decreases s.len(),
{
    if s.len() > 0 && is_ws(s[0]) {
        lemma_trim_start_skip(s.drop_first());
        assert(s.drop_first().skip(leading_ws(s.drop_first()) as int) =~= s.skip(
            leading_ws(s) as int,
        ));
    } else {
        assert(s.skip(0) =~= s);
    }
}

/// `trim_end` keeps a prefix whose last character, if any, is not whitespace.
pub proof fn lemma_trim_end_prefix(s: Seq<char>)
    ensures
        trim_end(s).len() <= s.len(),
        trim_end(s) == s.take(trim_end(s).len() as int),
        trim_end(s).len() > 0 ==> !is_ws(trim_end(s).last()),
    decreases s.len(),
{
    if s.len() > 0 && is_ws(s.last()) {
        lemma_trim_end_prefix(s.drop_last());
        assert(s.drop_last().take(trim_end(s).len() as int) =~= s.take(trim_end(s).len() as int));
    } else {
        assert(s.take(s.len() as int) =~= s);
    }
}

/// Trimming twice is trimming once.
pub proof fn lemma_trim_idempotent(s: Seq<char>)
    ensures
        trim(trim(s)) == trim(s),
{
    let t = trim_start(s);
    lemma_trim_start_skip(s);
    lemma_trim_end_prefix(t);
    let u = trim_end(t);
    if u.len() > 0 {
        assert(u[0] == t[0]);
        assert(trim_start(u) == u);
    } else {
        assert(trim_start(u) == u);
    }
    assert(trim_end(u) == u);
}

proof fn lemma_trim_end_step(s: Seq<char>, b: int)
    requires
        0 < b <= s.len(),
        is_ws(s[b - 1]),
    ensures
        trim_end(s.take(b)) == trim_end(s.take(b - 1)),
{
    assert(s.take(b).drop_last() =~= s.take(b - 1));
}

/// Bounds `(a, b)` of the trimmed part of `s`.
pub fn trim_bounds(s: &[char]) -> (r: (usize, usize))
    ensures
        r.0 <= r.1 <= s@.len(),
        s@.subrange(r.0 as int, r.1 as int) == trim(s@),
{
    let n = s.len();
    let mut a: usize = 0;
    assert(s@.skip(0) =~= s@);
    while a < n && is_whitespace(s[a])
        invariant
            a <= n == s@.len(),
            trim_start(s@) == trim_start(s@.skip(a as int)),
        decreases n - a,
    {
        assert(s@.skip(a as int).drop_first() =~= s@.skip(a + 1));
        a = a + 1;
    }
    let ghost t = s@.skip(a as int);
    assert(trim_start(t) == t);
    let mut b: usize = n;
    assert(t.take((b - a) as int) =~= t);
    while b > a && is_whitespace(s[b - 1])
        invariant
            a <= b <= n == s@.len(),
            t == s@.skip(a as int),
            trim_end(t) == trim_end(t.take((b - a) as int)),
        decreases b,
    {
        proof {
            lemma_trim_end_step(t, (b - a) as int);
        }
        b = b - 1;
    }
    assert(t.take((b - a) as int) =~= s@.subrange(a as int, b as int));
    (a, b)
}

/// A copy of `s` without leading and trailing whitespace.
pub fn trimmed(s: &[char]) -> (r: Vec<char>)
    ensures
        r@ == trim(s@),
{
    let (a, b) = trim_bounds(s);
    vstd::slice::slice_to_vec(vstd::slice::slice_subrange(s, a, b))
}

// ---------------------------------------------------------------------------
// Searching
// ---------------------------------------------------------------------------

/// First index `>= i` at which `s` holds `c`, or `s.len()` when there is none.
pub open spec fn find_from(s: Seq<char>, c: char, i: int) -> int
    decreases s.len() - i,
{
    if i >= s.len() {
        s.len() as int
    } else if s[i] == c {
        i
    } else {
        find_from(s, c, i + 1)
    }
}

pub proof fn lemma_find_from(s: Seq<char>, c: char, i: int)
    requires
        0 <= i <= s.len(),
    ensures
        i <= find_from(s, c, i) <= s.len(),
        find_from(s, c, i) < s.len() ==> s[find_from(s, c, i)] == c,
        forall|j: int| i <= j < find_from(s, c, i) ==> s[j] != c,
    decreases s.len() - i,
{
    if i < s.len() && s[i] != c {
        lemma_find_from(s, c, i + 1);
    }
}

pub proof fn lemma_find_from_char(s: Seq<char>, c: char, i: int, k: int)
    requires
        0 <= i <= k <= s.len(),
        k < s.len() ==> s[k] == c,
        forall|j: int| i <= j < k ==> s[j] != c,
    ensures
        find_from(s, c, i) == k,
    decreases k - i,
{
    if i < k {
        lemma_find_from_char(s, c, i + 1, k);
    }
}

/// Index of the first `c` in `s` at or after `from`, or `s.len()`.
pub fn find_char(s: &[char], c: char, from: usize) -> (r: usize)
    requires
        from <= s@.len(),
    ensures
        r as int == find_from(s@, c, from as int),
        from <= r <= s@.len(),
{
    let mut i = from;
    while i < s.len() && s[i] != c
        invariant
            from <= i <= s@.len(),
            forall|j: int| from <= j < i ==> s@[j] != c,
        decreases s@.len() - i,
    {
        i = i + 1;
    }
    proof {
        lemma_find_from_char(s@, c, from as int, i as int);
    }
    i
}

/// `s` begins with `p`.
pub open spec fn starts_with(s: Seq<char>, p: Seq<char>) -> bool {
    p.len() <= s.len() && s.take(p.len() as int) == p
}

/// Tests whether `s` begins with `p`.
pub fn has_prefix(s: &[char], p: &[char]) -> (r: bool)
    ensures
        r == starts_with(s@, p@),
{
    if p.len() > s.len() {
        return false;
    }
    let mut i: usize = 0;
    while i < p.len()
        invariant
            i <= p@.len() <= s@.len(),
            forall|j: int| 0 <= j < i ==> s@[j] == p@[j],
        decreases p@.len() - i,
    {
        if s[i] != p[i] {
            assert(s@.take(p@.len() as int)[i as int] != p@[i as int]);
            return false;
        }
        i = i + 1;
    }
    assert(s@.take(p@.len() as int) =~= p@);
    true
}

/// `n` occurs in `h` starting at index `i`.
pub open spec fn occurs_at(h: Seq<char>, n: Seq<char>, i: int) -> bool {
    0 <= i && i + n.len() <= h.len() && h.subrange(i, i + n.len()) == n
}

/// `n` occurs somewhere in `h`, as `str::contains` tests it.
pub open spec fn contains(h: Seq<char>, n: Seq<char>) -> bool {
    exists|i: int| occurs_at(h, n, i)
}

/// Tests whether `n` occurs in `h` at index `i`.
pub fn occurs_at_exec(h: &[char], n: &[char], i: usize) -> (r: bool)
    ensures
        r == occurs_at(h@, n@, i as int),
{
    if i > h.len() || n.len() > h.len() - i {
        return false;
    }
    let mut k: usize = 0;
    while k < n.len()
        invariant
            i + n@.len() <= h@.len(),
            h@.len() == h.len(),
            k <= n@.len(),
            forall|j: int| 0 <= j < k ==> h@[i + j] == n@[j],
        decreases n@.len() - k,
    {
        if h[i + k] != n[k] {
            assert(h@.subrange(i as int, i + n@.len())[k as int] != n@[k as int]);
            return false;
        }
        k = k + 1;
    }
    assert(h@.subrange(i as int, i + n@.len()) =~= n@);
    true
}

/// Tests whether `n` occurs in `h`.
pub fn contains_exec(h: &[char], n: &[char]) -> (r: bool)
    ensures
        r == contains(h@, n@),
{
    if n.len() > h.len() {
        return false;
    }
    let last = h.len() - n.len();
    let mut i: usize = 0;
    loop
        invariant
            n@.len() <= h@.len(),
            last == h@.len() - n@.len(),
            i <= last,
            forall|j: int| 0 <= j < i ==> !occurs_at(h@, n@, j),
        decreases last - i,
    {
        if occurs_at_exec(h, n, i) {
            return true;
        }
        if i == last {
            return false;
        }
        i = i + 1;
    }
}

// ---------------------------------------------------------------------------
// Lines
// ---------------------------------------------------------------------------

/// `s` without one trailing carriage return.
pub open spec fn strip_cr(s: Seq<char>) -> Seq<char> {
    if s.len() > 0 && s.last() == '\r' {
        s.drop_last()
    } else {
        s
    }
}

/// The lines of `s` as `str::lines` yields them: split after each `\n`, the
/// `\n` and a `\r` just before it removed, and no empty line after a final `\n`.
pub open spec fn lines(s: Seq<char>) -> Seq<Seq<char>>
    decreases s.len(),
{
    if s.len() == 0 {
        seq![]
    } else {
        let i = find_from(s, '\n', 0);
        if i >= s.len() {
            seq![s]
        } else {
            proof {
                lemma_find_from(s, '\n', 0);
            }
            seq![strip_cr(s.take(i))] + lines(s.skip(i + 1))
        }
    }
}

/// The elements of `v` seen as character sequences equal `l`.
pub open spec fn views_are(v: Seq<Vec<char>>, l: Seq<Seq<char>>) -> bool {
    v.len() == l.len() && forall|i: int| 0 <= i < v.len() ==> #[trigger] v[i]@ == l[i]
}

/// A copy of `s[a..b]` without one trailing `\r`.
fn line_piece(s: &[char], a: usize, b: usize) -> (r: Vec<char>)
    requires
        a <= b <= s@.len(),
    ensures
        r@ == strip_cr(s@.subrange(a as int, b as int)),
{
    let mut e = b;
    if b > a && s[b - 1] == '\r' {
        e = b - 1;
    }
    let r = vstd::slice::slice_to_vec(vstd::slice::slice_subrange(s, a, e));
    assert(e < b ==> s@.subrange(a as int, b as int).drop_last() =~= s@.subrange(a as int, e as int));
    r
}

/// Splits `s` into its lines.
pub fn split_lines(s: &[char]) -> (r: Vec<Vec<char>>)
    ensures
        views_are(r@, lines(s@)),
{
    let n = s.len();
    let mut out: Vec<Vec<char>> = Vec::new();
    let mut start: usize = 0;
    let mut i: usize = 0;
    assert(s@.skip(0) =~= s@);
    while i < n
        invariant
            start <= i <= n == s@.len(),
            forall|j: int| start <= j < i ==> s@[j] != '\n',
            lines(s@) == out@.map_values(|v: Vec<char>| v@) + lines(s@.skip(start as int)),
        decreases n - i,
    {
        if s[i] == '\n' {
            let ghost rest = s@.skip(start as int);
            proof {
                lemma_find_from_char(rest, '\n', 0, (i - start) as int);
                assert(rest.take((i - start) as int) =~= s@.subrange(start as int, i as int));
                assert(rest.skip((i - start) + 1) =~= s@.skip(i + 1));
            }
            let piece = line_piece(s, start, i);
            let ghost old_out = out@;
            out.push(piece);
            assert(out@.map_values(|v: Vec<char>| v@) =~= old_out.map_values(|v: Vec<char>| v@).push(
                piece@,
            ));
            start = i + 1;
        }
        i = i + 1;
    }
    if start < n {
        let ghost rest = s@.skip(start as int);
        proof {
            lemma_find_from_char(rest, '\n', 0, rest.len() as int);
        }
        let piece = vstd::slice::slice_to_vec(vstd::slice::slice_subrange(s, start, n));
        assert(piece@ =~= rest);
        let ghost old_out = out@;
        out.push(piece);
        assert(out@.map_values(|v: Vec<char>| v@) =~= old_out.map_values(|v: Vec<char>| v@).push(
            piece@,
        ));
    } else {
        assert(s@.skip(start as int) =~= Seq::<char>::empty());
    }
    assert(out@.map_values(|v: Vec<char>| v@) =~= lines(s@));
    out
}

// ---------------------------------------------------------------------------
// Runs of whitespace and of digits
// ---------------------------------------------------------------------------

/// First index `>= i` that does not hold whitespace, or `s.len()`.
pub open spec fn ws_end(s: Seq<char>, i: int) -> int
    decreases s.len() - i,
{
    if i >= s.len() {
        s.len() as int
    } else if is_ws(s[i]) {
        ws_end(s, i + 1)
    } else {
        i
    }
}

/// First index `>= i` that does not hold a Unicode decimal digit, or `s.len()`.
pub open spec fn decimal_end(s: Seq<char>, i: int) -> int
    decreases s.len() - i,
{
    if i >= s.len() {
        s.len() as int
    } else if is_decimal(s[i]) {
        decimal_end(s, i + 1)
    } else {
        i
    }
}

pub proof fn lemma_ws_end(s: Seq<char>, i: int, k: int)
    requires
        0 <= i <= k <= s.len(),
        k < s.len() ==> !is_ws(s[k]),
        forall|j: int| i <= j < k ==> is_ws(s[j]),
    ensures
        ws_end(s, i) == k,
    decreases k - i,
{
    if i < k {
        lemma_ws_end(s, i + 1, k);
    }
}

pub proof fn lemma_decimal_end(s: Seq<char>, i: int, k: int)
    requires
        0 <= i <= k <= s.len(),
        k < s.len() ==> !is_decimal(s[k]),
        forall|j: int| i <= j < k ==> is_decimal(s[j]),
    ensures
        decimal_end(s, i) == k,
    decreases k - i,
{
    if i < k {
        lemma_decimal_end(s, i + 1, k);
    }
}

pub proof fn lemma_ws_end_bounds(s: Seq<char>, i: int)
    requires
        0 <= i <= s.len(),
    ensures
        i <= ws_end(s, i) <= s.len(),
        forall|j: int| i <= j < ws_end(s, i) ==> is_ws(s[j]),
        ws_end(s, i) < s.len() ==> !is_ws(s[ws_end(s, i)]),
    decreases s.len() - i,
{
    if i < s.len() && is_ws(s[i]) {
        lemma_ws_end_bounds(s, i + 1);
    }
}

/// Index just past the whitespace run of `s` that starts at `i`.
pub fn skip_ws(s: &[char], i: usize) -> (r: usize)
    requires
        i <= s@.len(),
    ensures
        r as int == ws_end(s@, i as int),
        i <= r <= s@.len(),
{
    let mut k = i;
    while k < s.len() && is_whitespace(s[k])
        invariant
            i <= k <= s@.len(),
            forall|j: int| i <= j < k ==> is_ws(s@[j]),
        decreases s@.len() - k,
    {
        k = k + 1;
    }
    proof {
        lemma_ws_end(s@, i as int, k as int);
    }
    k
}

/// Index just past the run of Unicode decimal digits of `s` that starts at `i`.
pub fn skip_decimal(s: &[char], i: usize) -> (r: usize)
    requires
        i <= s@.len(),
    ensures
        r as int == decimal_end(s@, i as int),
        i <= r <= s@.len(),
{
    let mut k = i;
    while k < s.len() && is_decimal_char(s[k])
        invariant
            i <= k <= s@.len(),
            forall|j: int| i <= j < k ==> is_decimal(s@[j]),
        decreases s@.len() - k,
    {
        k = k + 1;
    }
    proof {
        lemma_decimal_end(s@, i as int, k as int);
    }
    k
}

// ---------------------------------------------------------------------------
// Whitespace-separated tokens
// ---------------------------------------------------------------------------

/// First index `>= i` holding whitespace, or `s.len()`.
pub open spec fn find_ws_from(s: Seq<char>, i: int) -> int
    decreases s.len() - i,
{
    if i >= s.len() {
        s.len() as int
    } else if is_ws(s[i]) {
        i
    } else {
        find_ws_from(s, i + 1)
    }
}

pub proof fn lemma_find_ws_from(s: Seq<char>, i: int, k: int)
    requires
        0 <= i <= k <= s.len(),
        k < s.len() ==> is_ws(s[k]),
        forall|j: int| i <= j < k ==> !is_ws(s[j]),
    ensures
        find_ws_from(s, i) == k,
    decreases k - i,
{
    if i < k {
        lemma_find_ws_from(s, i + 1, k);
    }
}

pub proof fn lemma_find_ws_bounds(s: Seq<char>, i: int)
    requires
        0 <= i <= s.len(),
    ensures
        i <= find_ws_from(s, i) <= s.len(),
    decreases s.len() - i,
{
    if i < s.len() && !is_ws(s[i]) {
        lemma_find_ws_bounds(s, i + 1);
    }
}

/// The tokens of `s` as `str::split_whitespace` yields them.
pub open spec fn tokens(s: Seq<char>) -> Seq<Seq<char>>
    decreases s.len(),
{
    let t = trim_start(s);
    if t.len() == 0 {
        seq![]
    } else {
        let k = find_ws_from(t, 1);
        proof {
            lemma_trim_start_skip(s);
            lemma_find_ws_bounds(t, 1);
        }
        seq![t.take(k)] + tokens(t.skip(k))
    }
}

/// Splits `s` at whitespace, dropping empty pieces.
pub fn split_tokens(s: &[char]) -> (r: Vec<Vec<char>>)
    ensures
        views_are(r@, tokens(s@)),
{
    let n = s.len();
    let mut out: Vec<Vec<char>> = Vec::new();
    let mut i: usize = 0;
    assert(s@.skip(0) =~= s@);
    while i < n
        invariant
            i <= n == s@.len(),
            tokens(s@) == out@.map_values(|v: Vec<char>| v@) + tokens(s@.skip(i as int)),
        decreases n - i,
    {
        if is_whitespace(s[i]) {
            assert(s@.skip(i as int).drop_first() =~= s@.skip(i + 1));
            assert(trim_start(s@.skip(i as int)) == trim_start(s@.skip(i + 1)));
            assert(tokens(s@.skip(i as int)) == tokens(s@.skip(i + 1)));
            i = i + 1;
        } else {
            let mut j = i + 1;
            while j < n && !is_whitespace(s[j])
                invariant
                    i < j <= n == s@.len(),
                    forall|m: int| i <= m < j ==> !is_ws(s@[m]),
                decreases n - j,
            {
                j = j + 1;
            }
            let ghost t = s@.skip(i as int);
            proof {
                assert(trim_start(t) == t);
                lemma_find_ws_from(t, 1, (j - i) as int);
                assert(t.take((j - i) as int) =~= s@.subrange(i as int, j as int));
                assert(t.skip((j - i) as int) =~= s@.skip(j as int));
            }
            let piece = vstd::slice::slice_to_vec(vstd::slice::slice_subrange(s, i, j));
            let ghost old_out = out@;
            out.push(piece);
            assert(out@.map_values(|v: Vec<char>| v@) =~= old_out.map_values(|v: Vec<char>| v@).push(
                piece@,
            ));
            i = j;
        }
    }
    assert(s@.skip(n as int) =~= Seq::<char>::empty());
    assert(out@.map_values(|v: Vec<char>| v@) =~= tokens(s@));
    out
}

// ---------------------------------------------------------------------------
// Unsigned decimal numbers
// ---------------------------------------------------------------------------

/// The value of a string of ASCII digits.
pub open spec fn digits_value(d: Seq<char>) -> nat
    decreases d.len(),
{
    if d.len() == 0 {
        0
    } else {
        digits_value(d.drop_last()) * 10 + digit_value(d.last())
    }
}

/// Every character of `d` is an ASCII digit.
pub open spec fn all_digits(d: Seq<char>) -> bool {
    forall|i: int| 0 <= i < d.len() ==> is_ascii_digit(#[trigger] d[i])
}

/// The digits part of an unsigned number: a leading `+` is allowed when
/// something follows it.
pub open spec fn unsigned_digits(s: Seq<char>) -> Seq<char> {
    if s.len() > 1 && s[0] == '+' {
        s.drop_first()
    } else {
        s
    }
}

/// What `str::parse` gives for an unsigned integer type whose largest value
/// is `max`: the value of the digits, when they are all ASCII digits, at
/// least one, and the value is at most `max`.
pub open spec fn parse_unsigned(s: Seq<char>, max: nat) -> Option<nat> {
    let d = unsigned_digits(s);
    if d.len() > 0 && all_digits(d) && digits_value(d) <= max {
        Some(digits_value(d))
    } else {
        None
    }
}

pub proof fn lemma_digits_value_take(d: Seq<char>, i: int, j: int)
    requires
        0 <= i <= j <= d.len(),
        all_digits(d),
    ensures
        digits_value(d.take(i)) <= digits_value(d.take(j)),
    decreases j - i,
{
    if i < j {
        lemma_digits_value_take(d, i, j - 1);
        assert(d.take(j).drop_last() =~= d.take(j - 1));
    }
}

/// Parses an unsigned decimal number no larger than `max` as `str::parse`
/// does for the unsigned type whose largest value is `max`.
pub fn parse_unsigned_exec(s: &[char], max: u64) -> (r: Option<u64>)
    ensures
        match r {
            Some(v) => parse_unsigned(s@, max as nat) == Some(v as nat),
            None => parse_unsigned(s@, max as nat) is None,
        },
{
    let mut start: usize = 0;
    if s.len() > 1 && s[0] == '+' {
        start = 1;
    }
    let ghost d = unsigned_digits(s@);
    assert(d =~= s@.skip(start as int));
    if start == s.len() {
        return None;
    }
    let mut i = start;
    while i < s.len()
        invariant
            start <= i <= s@.len(),
            d == s@.skip(start as int),
            d == unsigned_digits(s@),
            forall|j: int| start <= j < i ==> is_ascii_digit(s@[j]),
        decreases s@.len() - i,
    {
        if !('0' <= s[i] && s[i] <= '9') {
            assert(!is_ascii_digit(d[i - start]));
            assert(!all_digits(d));
            return None;
        }
        i = i + 1;
    }
    assert(all_digits(d));
    let mut v: u64 = 0;
    let mut k = start;
    assert(d.take(0) =~= Seq::<char>::empty());
    while k < s.len()
        invariant
            start <= k <= s@.len(),
            d == s@.skip(start as int),
            d == unsigned_digits(s@),
            all_digits(d),
            v as nat == digits_value(d.take(k - start)),
            v <= max,
            d.len() == s@.len() - start,
        decreases s@.len() - k,
    {
        assert(is_ascii_digit(d[k - start]));
        let dv = (s[k] as u32 - 48) as u64;
        assert(d.take(k - start + 1).drop_last() =~= d.take(k - start));
        assert(d.take(k - start + 1).last() == s@[k as int]);
        if v > max / 10 || max - v * 10 < dv {
            proof {
                assert(v * 10 + dv > max) by (nonlinear_arith)
                    requires
                        v > max / 10 || (v <= max / 10 && max - v * 10 < dv),
                        dv <= 9,
                ;
                lemma_digits_value_take(d, k - start + 1, d.len() as int);
                assert(d.take(d.len() as int) =~= d);
            }
            return None;
        }
        v = v * 10 + dv;
        k = k + 1;
    }
    assert(d.take(d.len() as int) =~= d);
    Some(v)
}

// ---------------------------------------------------------------------------
// Decimal output
// ---------------------------------------------------------------------------

/// The decimal digits of `n`, as `{}` formats an unsigned integer.
pub open spec fn dec(n: nat) -> Seq<char>
    decreases n,
{
    if n < 10 {
        seq![digit_char(n)]
    } else {
        dec(n / 10).push(digit_char(n % 10))
    }
}

/// The decimal digits of `n` are ASCII digits, at least one, whose value is
/// `n`.
pub proof fn lemma_dec_digits(n: nat)
    ensures
        dec(n).len() > 0,
        all_digits(dec(n)),
        digits_value(dec(n)) == n,
        forall|i: int| 0 <= i < dec(n).len() ==> is_decimal(#[trigger] dec(n)[i]) && !is_ws(dec(n)[i]),
    decreases n,
{
    let c = digit_char(n % 10);
    assert((((n % 10) + 48) as char) as u32 == (n % 10) + 48);
    assert(digit_value(c) == n % 10);
    if n >= 10 {
        lemma_dec_digits(n / 10);
        let d = dec(n / 10);
        assert(dec(n).drop_last() =~= d);
        assert(dec(n).last() == c);
        assert forall|i: int| 0 <= i < dec(n).len() implies is_ascii_digit(#[trigger] dec(n)[i]) by {
            if i < d.len() {
                assert(dec(n)[i] == d[i]);
                assert(is_ascii_digit(d[i]));
            }
        }
        assert(digits_value(dec(n)) == digits_value(d) * 10 + digit_value(c));
        assert(n == (n / 10) * 10 + n % 10);
    } else {
        assert(dec(n) == seq![c]);
        assert(dec(n).drop_last() =~= Seq::<char>::empty());
        assert(digits_value(dec(n)) == digits_value(dec(n).drop_last()) * 10 + digit_value(c));
    }
}

/// Appends the decimal digits of `n` to `out`.
pub fn push_dec(out: &mut Vec<char>, n: u64)
    ensures
        final(out)@ == old(out)@ + dec(n as nat),
    decreases n,
{
    if n >= 10 {
        push_dec(out, n / 10);
    }
    let c = ((n % 10) as u8 + 48u8) as char;
    out.push(c);
    assert(digit_char((n % 10) as nat) == c);
}

// ---------------------------------------------------------------------------
// Strings
// ---------------------------------------------------------------------------

/// Copies the characters of `s` into a vector.
pub fn chars_of(s: &str) -> (out: Vec<char>)
    ensures
        out@ == s@,
{
    let mut out: Vec<char> = Vec::new();
    for c in it: s.chars()
        invariant
            out@ == it.seq().take(it.index() as int),
    {
        out.push(c);
    }
    out
}

/// Appends the UTF-8 encoding of `c` to `out`.
fn push_utf8(out: &mut Vec<u8>, c: char)
    ensures
        final(out)@ == old(out)@ + vstd::utf8::encode_scalar(c as u32),
{
    let x: u32 = c as u32;
    proof {
        vstd::utf8::char_is_scalar(c);
    }
    if x <= 0x7F {
        out.push((x & 0x7F) as u8);
    } else if x <= 0x7FF {
        out.push(0xC0u8 | ((x >> 6) & 0x1F) as u8);
        out.push(0x80u8 | (x & 0x3F) as u8);
    } else if x <= 0xFFFF {
        out.push(0xE0u8 | ((x >> 12) & 0x0F) as u8);
        out.push(0x80u8 | ((x >> 6) & 0x3F) as u8);
        out.push(0x80u8 | (x & 0x3F) as u8);
    } else {
        out.push(0xF0u8 | ((x >> 18) & 0x7) as u8);
        out.push(0x80u8 | ((x >> 12) & 0x3F) as u8);
        out.push(0x80u8 | ((x >> 6) & 0x3F) as u8);
        out.push(0x80u8 | (x & 0x3F) as u8);
    }
    assert(out@ =~= old(out)@ + vstd::utf8::encode_scalar(c as u32));
}

/// Encoding one more character appends its encoding.
pub proof fn lemma_encode_push(s: Seq<char>, c: char)
    ensures
        vstd::utf8::encode_utf8(s.push(c)) == vstd::utf8::encode_utf8(s)
            + vstd::utf8::encode_scalar(c as u32),
    decreases s.len(),
{
    if s.len() == 0 {
        assert(s.push(c).drop_first() =~= Seq::<char>::empty());
        assert(vstd::utf8::encode_utf8(Seq::<char>::empty()) =~= Seq::<u8>::empty());
        assert(vstd::utf8::encode_scalar(c as u32) + Seq::<u8>::empty() =~= vstd::utf8::encode_scalar(
            c as u32,
        ));
        assert(Seq::<u8>::empty() + vstd::utf8::encode_scalar(c as u32) =~= vstd::utf8::encode_scalar(
            c as u32,
        ));
    } else {
        assert(s.push(c).drop_first() =~= s.drop_first().push(c));
        lemma_encode_push(s.drop_first(), c);
        assert(vstd::utf8::encode_utf8(s.push(c)) =~= vstd::utf8::encode_utf8(s)
            + vstd::utf8::encode_scalar(c as u32));
    }
}

/// The number of UTF-8 bytes of a character.
pub open spec fn char_bytes(c: char) -> nat {
    let u = c as u32;
    if u < 0x80 {
        1
    } else if u < 0x800 {
        2
    } else if u < 0x10000 {
        3
    } else {
        4
    }
}

/// The UTF-8 encoding of a character has `char_bytes` bytes.
pub proof fn lemma_scalar_len(c: char)
    ensures
        vstd::utf8::encode_scalar(c as u32).len() == char_bytes(c),
{
    vstd::utf8::char_is_scalar(c);
}

/// The number of UTF-8 bytes of `c`.
pub fn char_bytes_exec(c: char) -> (r: usize)
    ensures
        r == char_bytes(c),
{
    let u = c as u32;
    if u < 0x80 {
        1
    } else if u < 0x800 {
        2
    } else if u < 0x10000 {
        3
    } else {
        4
    }
}

/// A `String` holding the characters of `v`: their UTF-8 encoding, decoded.
pub fn string_of(v: &[char]) -> (r: String)
    ensures
        r@ == v@,
{
    let mut bytes: Vec<u8> = Vec::new();
    let mut i: usize = 0;
    assert(v@.take(0) =~= Seq::<char>::empty());
    while i < v.len()
        invariant
            i <= v@.len(),
            bytes@ == vstd::utf8::encode_utf8(v@.take(i as int)),
        decreases v@.len() - i,
    {
        proof {
            assert(v@.take(i + 1) =~= v@.take(i as int).push(v@[i as int]));
            lemma_encode_push(v@.take(i as int), v@[i as int]);
        }
        push_utf8(&mut bytes, v[i]);
        i = i + 1;
    }
    assert(v@.take(i as int) =~= v@);
    proof {
        vstd::utf8::encode_utf8_valid_utf8(v@);
        vstd::utf8::encode_utf8_decode_utf8(v@);
    }
    utf8_lossy(bytes.as_slice())
}

/// The number of bytes of the UTF-8 encoding of `v`.
pub fn utf8_byte_len(v: &[char]) -> (r: usize)
    ensures
        r == vstd::utf8::encode_utf8(v@).len(),
{
    let mut bytes: Vec<u8> = Vec::new();
    let mut i: usize = 0;
    assert(v@.take(0) =~= Seq::<char>::empty());
    while i < v.len()
        invariant
            i <= v@.len(),
            bytes@ == vstd::utf8::encode_utf8(v@.take(i as int)),
        decreases v@.len() - i,
    {
        proof {
            assert(v@.take(i + 1) =~= v@.take(i as int).push(v@[i as int]));
            lemma_encode_push(v@.take(i as int), v@[i as int]);
        }
        push_utf8(&mut bytes, v[i]);
        i = i + 1;
    }
    assert(v@.take(i as int) =~= v@);
    bytes.len()
}

/// An owned copy of `s`.
pub fn owned(s: &str) -> (r: String)
    ensures
        r@ == s@,
{
    s.to_owned()
}

/// The characters of `a` followed by those of `b`.
pub fn concat(a: &str, b: &str) -> (r: String)
    ensures
        r@ == a@ + b@,
{
    let mut v = chars_of(a);
    let w = chars_of(b);
    let mut i: usize = 0;
    while i < w.len()
        invariant
            i <= w@.len(),
            v@ == a@ + w@.take(i as int),
        decreases w@.len() - i,
    {
        v.push(w[i]);
        i = i + 1;
        assert(v@ =~= a@ + w@.take(i as int));
    }
    assert(w@.take(w@.len() as int) =~= w@);
    string_of(v.as_slice())
}

/// Name for what `str::to_lowercase` of std returns for a string holding the
/// characters `s` (full Unicode lower-casing).
pub uninterp spec fn lowercase(s: Seq<char>) -> Seq<char>;

/// The ASCII lower-case form of `c`: `A`..=`Z` become `a`..=`z`, any other
/// character stays.
pub open spec fn ascii_lowercase(c: char) -> char {
    if 'A' <= c && c <= 'Z' {
        ((c as u32) + 32) as char
    } else {
        c
    }
}

/// Calls `str::to_lowercase` of std. The contract claims that the result is
/// `lowercase` of the input's characters (a function of them alone), and
/// that an all-ASCII text maps each character to its ASCII lower case, as
/// the Unicode lower-case mapping that std follows does.
#[verifier::external_body]
pub(crate) fn to_lowercase(s: &str) -> (r: String)
    ensures
        r@ == lowercase(s@),
        (forall|i: int| 0 <= i < s@.len() ==> (#[trigger] s@[i] as u32) < 0x80) ==> r@ == s@.map_values(
            |c: char| ascii_lowercase(c),
        ),
{
    s.to_lowercase()
}

/// Tests whether `a` and `b` hold the same characters.
pub fn same_chars(a: &[char], b: &[char]) -> (r: bool)
    ensures
        r == (a@ == b@),
{
    if a.len() != b.len() {
        return false;
    }
    let mut i: usize = 0;
    while i < a.len()
        invariant
            i <= a@.len() == b@.len(),
            forall|j: int| 0 <= j < i ==> a@[j] == b@[j],
        decreases a@.len() - i,
    {
        if a[i] != b[i] {
            return false;
        }
        i = i + 1;
    }
    assert(a@ =~= b@);
    true
}

/// Tests whether `a` holds the characters of `b`.
pub fn eq_str(a: &[char], b: &str) -> (r: bool)
    ensures
        r == (a@ == b@),
{
    let w = chars_of(b);
    same_chars(a, w.as_slice())
}

/// Name for what `regex_syntax::is_word_character` returns for `c`: whether
/// `c` is a Unicode word character, the class `\w` of the `regex` crate.
pub uninterp spec fn word_char(c: char) -> bool;

/// Calls `regex_syntax::is_word_character` (the `unicode-perl` tables are
/// enabled by the crate's default features). The contract claims the result
/// is `word_char` of `c`, and what the crate documents of the class: decimal
/// numbers are word characters, and an ASCII character is one exactly when it
/// is a letter, a digit or `_`.
#[verifier::external_body]
pub(crate) fn is_word_char(c: char) -> (r: bool)
    ensures
        r == word_char(c),
        is_decimal(c) ==> r,
        (c as u32) < 0x80 ==> (r <==> (('a' <= c && c <= 'z') || ('A' <= c && c <= 'Z') || ('0'
            <= c && c <= '9') || c == '_')),
{
    regex_syntax::is_word_character(c)
}

/// Name for what `char::to_uppercase` of std yields for `c`.
pub uninterp spec fn uppercase(c: char) -> Seq<char>;

/// Calls `char::to_uppercase` of std and collects what it yields. The
/// contract claims only that the result is `uppercase` of `c`.
#[verifier::external_body]
pub(crate) fn to_uppercase_char(c: char) -> (r: String)
    ensures
        r@ == uppercase(c),
{
    c.to_uppercase().collect()
}

/// Name for what `String::from_utf8_lossy` of std returns for `bytes`.
pub uninterp spec fn lossy_utf8(bytes: Seq<u8>) -> Seq<char>;

/// Calls `String::from_utf8_lossy` of std. The contract claims that the
/// result is `lossy_utf8` of the bytes, and, as std documents, that valid
/// UTF-8 is decoded unchanged.
#[verifier::external_body]
pub(crate) fn utf8_lossy(bytes: &[u8]) -> (r: String)
    ensures
        r@ == lossy_utf8(bytes@),
        vstd::utf8::valid_utf8(bytes@) ==> r@ == vstd::utf8::decode_utf8(bytes@),
{
    String::from_utf8_lossy(bytes).into_owned()
}

} // verus!
